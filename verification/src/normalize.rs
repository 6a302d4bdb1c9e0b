//! The structural invariant of a configuration: all built-in categories present
//! and in canonical order, the ignore list free of duplicates, the recent list
//! no longer than `MAX_RECENT`.
use vstd::prelude::*;

use crate::config::{
    builtin_category, builtin_ids, builtin_names, category_views, find_category, has_category,
    is_builtin_id, is_first_with_id, norm_path, norm_path_spec, string_views, AppConfig,
    Category, CategoryView, ConfigView, ItemView, Settings, default_settings, MAX_RECENT,
    SCHEMA_VERSION,
};

verus! {

/// The `j`-th built-in category, empty.
pub open spec fn fresh_builtin(j: int) -> CategoryView {
    CategoryView { id: builtin_ids()[j], name: builtin_names()[j], items: Seq::<ItemView>::empty() }
}

/// `cats` with the first `j` built-in categories appended when missing, in canonical order.
pub open spec fn with_missing_upto(cats: Seq<CategoryView>, j: nat) -> Seq<CategoryView>
    decreases j,
{
    if j == 0 {
        cats
    } else {
        let prev = with_missing_upto(cats, (j - 1) as nat);
        if has_category(prev, builtin_ids()[j - 1]) {
            prev
        } else {
            prev.push(fresh_builtin(j - 1))
        }
    }
}

pub open spec fn with_missing_builtins(cats: Seq<CategoryView>) -> Seq<CategoryView> {
    with_missing_upto(cats, 5)
}

/// Index of the first category with this id (meaningful when there is one).
pub open spec fn first_index(cats: Seq<CategoryView>, id: Seq<char>) -> int {
    choose|k: int| is_first_with_id(cats, id, k)
}

/// Position `i` holds the first occurrence of a built-in id.
pub open spec fn is_leading_builtin(cats: Seq<CategoryView>, i: int) -> bool {
    &&& is_builtin_id(cats[i].id)
    &&& forall|j: int| 0 <= j < i ==> #[trigger] cats[j].id != cats[i].id
}

/// The categories of `cats` that are not the first occurrence of a built-in id, in order.
pub open spec fn other_categories(cats: Seq<CategoryView>) -> Seq<CategoryView>
    decreases cats.len(),
{
    if cats.len() == 0 {
        seq![]
    } else {
        let prev = other_categories(cats.drop_last());
        if is_leading_builtin(cats, cats.len() - 1) {
            prev
        } else {
            prev.push(cats.last())
        }
    }
}

/// Canonical category order: the five built-ins (missing ones created), then
/// every other category in the relative order it had.
pub open spec fn normalized_categories(cats: Seq<CategoryView>) -> Seq<CategoryView> {
    let c = with_missing_builtins(cats);
    Seq::new(5, |j: int| c[first_index(c, builtin_ids()[j])]) + other_categories(c)
}

/// `s` keeping only the first entry of each normalized path.
pub open spec fn dedup_by_norm(s: Seq<Seq<char>>) -> Seq<Seq<char>>
    decreases s.len(),
{
    if s.len() == 0 {
        seq![]
    } else {
        let p = s.drop_last();
        if exists|j: int| 0 <= j < p.len() && #[trigger] norm_path_spec(p[j]) == norm_path_spec(s.last()) {
            dedup_by_norm(p)
        } else {
            dedup_by_norm(p).push(s.last())
        }
    }
}

pub open spec fn min_recent(n: nat) -> int {
    if n < MAX_RECENT {
        n as int
    } else {
        MAX_RECENT as int
    }
}

/// The configuration after `normalize()`.
pub open spec fn normalized(c: ConfigView) -> ConfigView {
    ConfigView {
        schema_version: c.schema_version,
        categories: normalized_categories(c.categories),
        recent: c.recent.take(min_recent(c.recent.len())),
        settings: c.settings,
        ignored: dedup_by_norm(c.ignored),
    }
}

pub proof fn lemma_first_index(cats: Seq<CategoryView>, id: Seq<char>, k: int)
    requires
        is_first_with_id(cats, id, k),
    ensures
        first_index(cats, id) == k,
{
    let f = first_index(cats, id);
    assert(is_first_with_id(cats, id, f));
    if f < k {
        assert(cats[f].id != id);
    } else if k < f {
        assert(cats[k].id != id);
    }
}

pub proof fn lemma_has_first(cats: Seq<CategoryView>, id: Seq<char>)
    requires
        has_category(cats, id),
    ensures
        is_first_with_id(cats, id, first_index(cats, id)),
    decreases cats.len(),
{
    let i = choose|i: int| 0 <= i < cats.len() && #[trigger] cats[i].id == id;
    if exists|j: int| 0 <= j < i && #[trigger] cats[j].id == id {
        let j = choose|j: int| 0 <= j < i && #[trigger] cats[j].id == id;
        assert(cats.take(i)[j].id == id);
        lemma_has_first(cats.take(i), id);
        let k = first_index(cats.take(i), id);
        assert forall|jj: int| 0 <= jj < k implies #[trigger] cats[jj].id != id by {
            assert(cats.take(i)[jj] == cats[jj]);
        }
        assert(cats.take(i)[k] == cats[k]);
        assert(is_first_with_id(cats, id, k));
        lemma_first_index(cats, id, k);
    } else {
        assert(is_first_with_id(cats, id, i));
        lemma_first_index(cats, id, i);
    }
}

proof fn lemma_with_missing_has(cats: Seq<CategoryView>, j: nat)
    requires
        j <= 5,
    ensures
        forall|t: int| 0 <= t < j ==> has_category(with_missing_upto(cats, j), #[trigger] builtin_ids()[t]),
        forall|i: int| 0 <= i < cats.len() ==> #[trigger] with_missing_upto(cats, j)[i] == cats[i],
        with_missing_upto(cats, j).len() >= cats.len(),
    decreases j,
{
    if j > 0 {
        lemma_with_missing_has(cats, (j - 1) as nat);
        let prev = with_missing_upto(cats, (j - 1) as nat);
        let cur = with_missing_upto(cats, j);
        assert forall|t: int| 0 <= t < j implies has_category(cur, #[trigger] builtin_ids()[t]) by {
            if t < j - 1 {
                assert(has_category(prev, builtin_ids()[t]));
                let i = choose|i: int| 0 <= i < prev.len() && #[trigger] prev[i].id == builtin_ids()[t];
                assert(cur[i] == prev[i]);
            } else if !has_category(prev, builtin_ids()[j - 1]) {
                assert(cur[prev.len() as int].id == builtin_ids()[t]);
            }
        }
    }
}

/// The configuration of a new user: the five built-in categories, empty.
pub open spec fn default_config() -> ConfigView {
    ConfigView {
        schema_version: SCHEMA_VERSION,
        categories: Seq::new(5, |j: int| fresh_builtin(j)),
        recent: seq![],
        settings: default_settings(),
        ignored: seq![],
    }
}

impl Default for AppConfig {
    fn default() -> (c: Self)
        ensures
            c@ == default_config(),
    {
        let mut categories: Vec<Category> = Vec::new();
        let mut j: usize = 0;
        while j < 5
            invariant
                j <= 5,
                category_views(categories@) == Seq::new(j as nat, |t: int| fresh_builtin(t)),
            decreases 5 - j,
        {
            let (id, name) = builtin_category(j);
            let cat = Category { id, name, items: Vec::new() };
            assert(cat@ == fresh_builtin(j as int)) by {
                assert(cat@.items =~= Seq::<ItemView>::empty());
            }
            let ghost before = category_views(categories@);
            categories.push(cat);
            assert(category_views(categories@) =~= before.push(fresh_builtin(j as int)));
            assert(category_views(categories@) =~= Seq::new(
                (j + 1) as nat,
                |t: int| fresh_builtin(t),
            ));
            j += 1;
        }
        let c = AppConfig {
            schema_version: SCHEMA_VERSION,
            categories,
            recent: Vec::new(),
            settings: Settings::default(),
            ignored: Vec::new(),
        };
        assert(c@.recent =~= seq![]);
        assert(c@.ignored =~= seq![]);
        c
    }
}

impl AppConfig {
    /// Restores the structural invariant; runs on every load and must be idempotent.
    ///
    /// Only two things are maintained: the categories are complete and in
    /// canonical order, and the ignore list has no duplicates. Item contents are
    /// not touched; ordering items is the sync engine's job.
    pub fn normalize(&mut self)
        ensures
            final(self)@ == normalized(old(self)@),
    {
        let ghost start = self@;
        // Append missing built-ins (an old file without "desktop" gets it here).
        let mut j: usize = 0;
        while j < 5
            invariant
                j <= 5,
                category_views(self.categories@) == with_missing_upto(start.categories, j as nat),
                self@.recent == start.recent,
                self@.ignored == start.ignored,
                self@.settings == start.settings,
                self@.schema_version == start.schema_version,
            decreases 5 - j,
        {
            let (id, name) = builtin_category(j);
            match find_category(&self.categories, &id) {
                None => {
                    let ghost before = category_views(self.categories@);
                    let cat = Category { id, name, items: Vec::new() };
                    assert(cat@ == fresh_builtin(j as int)) by {
                        assert(cat@.items =~= Seq::<ItemView>::empty());
                    }
                    self.categories.push(cat);
                    assert(category_views(self.categories@) =~= before.push(
                        fresh_builtin(j as int),
                    ));
                },
                Some(k) => {
                    assert(category_views(self.categories@)[k as int].id == builtin_ids()[j as int]);
                },
            }
            j += 1;
        }
        let ghost c = category_views(self.categories@);
        proof {
            lemma_with_missing_has(start.categories, 5);
        }
        // Built-ins first, in canonical order.
        let mut ordered: Vec<Category> = Vec::new();
        let mut j: usize = 0;
        while j < 5
            invariant
                j <= 5,
                category_views(self.categories@) == c,
                c == with_missing_builtins(start.categories),
                forall|t: int| 0 <= t < 5 ==> has_category(c, #[trigger] builtin_ids()[t]),
                category_views(ordered@) == Seq::new(
                    j as nat,
                    |t: int| c[first_index(c, builtin_ids()[t])],
                ),
            decreases 5 - j,
        {
            let (id, _) = builtin_category(j);
            let ghost before = category_views(ordered@);
            match find_category(&self.categories, &id) {
                Some(pos) => {
                    proof {
                        lemma_first_index(c, id@, pos as int);
                    }
                    let x = self.categories[pos].clone();
                    assert(x@ == c[pos as int]);
                    ordered.push(x);
                    assert(category_views(ordered@) =~= before.push(c[pos as int]));
                },
                None => {
                    assert(has_category(c, builtin_ids()[j as int]));
                    assert(false);
                },
            }
            assert(category_views(ordered@) =~= Seq::new(
                (j + 1) as nat,
                |t: int| c[first_index(c, builtin_ids()[t])],
            ));
            j += 1;
        }
        // Then every other category, keeping its relative order.
        let mut i: usize = 0;
        while i < self.categories.len()
            invariant
                i <= self.categories.len(),
                category_views(self.categories@) == c,
                category_views(ordered@) == Seq::new(
                    5,
                    |t: int| c[first_index(c, builtin_ids()[t])],
                ) + other_categories(c.take(i as int)),
            decreases self.categories.len() - i,
        {
            let builtin = is_builtin_category(self.categories[i].id.as_str());
            let found = find_category(&self.categories, &self.categories[i].id);
            let first = match found {
                Some(p) => p == i,
                None => false,
            };
            let leading = builtin && first;
            let ghost before = category_views(ordered@);
            proof {
                let t = c.take(i as int + 1);
                assert(t.drop_last() =~= c.take(i as int));
                assert(t[i as int] == c[i as int]);
                assert forall|k: int| 0 <= k < i implies #[trigger] t[k] == c[k] by {}
                match found {
                    Some(p) => {
                        if p < i {
                            assert(t[p as int].id == t[i as int].id);
                        }
                        if p > i {
                            assert(c[i as int].id == self.categories@[i as int]@.id);
                        }
                    },
                    None => {
                        assert(c[i as int].id == self.categories@[i as int]@.id);
                    },
                }
                assert(leading == is_leading_builtin(t, i as int));
            }
            if !leading {
                ordered.push(self.categories[i].clone());
                assert(category_views(ordered@) =~= before.push(c[i as int]));
            }
            i += 1;
        }
        proof {
            assert(c.take(c.len() as int) =~= c);
        }
        self.categories = ordered;
        // The ignore list keeps the first entry of each normalized path.
        self.ignored = dedup_ignored(&self.ignored);
        self.recent.truncate(MAX_RECENT);
        assert(self@.recent =~= start.recent.take(min_recent(start.recent.len())));
    }
}

use crate::config::is_builtin_category;

proof fn lemma_builtin_ids_distinct()
    ensures
        forall|a: int, b: int|
            0 <= a < 5 && 0 <= b < 5 && a != b ==> #[trigger] builtin_ids()[a] != #[trigger] builtin_ids()[b],
        builtin_ids().len() == 5,
{
    assert(builtin_ids()[0][0] == 'd');
    assert(builtin_ids()[1][0] == 's');
    assert(builtin_ids()[2][0] == 'p');
    assert(builtin_ids()[3][0] == 'm');
    assert(builtin_ids()[4][0] == 'f');
}

/// Whether position `i` is leading depends only on the prefix up to `i`.
proof fn lemma_leading_prefix(s: Seq<CategoryView>, n: int, i: int)
    requires
        0 <= i < n <= s.len(),
    ensures
        is_leading_builtin(s.take(n), i) == is_leading_builtin(s, i),
{
    let t = s.take(n);
    assert(t[i] == s[i]);
    if is_leading_builtin(s, i) {
        assert forall|j: int| 0 <= j < i implies #[trigger] t[j].id != t[i].id by {
            assert(t[j] == s[j]);
            assert(s[j].id != s[i].id);
        }
    }
    if is_leading_builtin(t, i) {
        assert forall|j: int| 0 <= j < i implies #[trigger] s[j].id != s[i].id by {
            assert(t[j] == s[j]);
            assert(t[j].id != t[i].id);
        }
    }
}

/// When the first `k` positions are exactly the leading ones, the other
/// categories are the ones after position `k`.
proof fn lemma_other_after(s: Seq<CategoryView>, k: int)
    requires
        0 <= k <= s.len(),
        forall|i: int| 0 <= i < k ==> is_leading_builtin(s, i),
        forall|i: int| k <= i < s.len() ==> !is_leading_builtin(s, i),
    ensures
        other_categories(s) == s.skip(k),
    decreases s.len(),
{
    if s.len() == 0 {
        assert(s.skip(k) =~= seq![]);
    } else {
        let p = s.drop_last();
        assert forall|i: int| 0 <= i < p.len() implies is_leading_builtin(p, i)
            == is_leading_builtin(s, i) by {
            lemma_leading_prefix(s, s.len() - 1, i);
            assert(p =~= s.take(s.len() - 1));
        }
        if s.len() == k {
            lemma_other_after(p, k - 1);
            assert(s.skip(k) =~= seq![]);
            assert(p.skip(k - 1) =~= seq![]) by {
                assert(p.len() == k - 1);
            }
            assert(is_leading_builtin(s, s.len() - 1));
        } else {
            lemma_other_after(p, k);
            assert(s.skip(k) =~= p.skip(k).push(s.last()));
        }
    }
}

/// In a normalized category list the built-ins come first, in canonical order.
pub proof fn lemma_normalized_builtins_first(cats: Seq<CategoryView>)
    ensures
        normalized_categories(cats).len() >= 5,
        forall|j: int| 0 <= j < 5 ==> #[trigger] normalized_categories(cats)[j].id == builtin_ids()[j],
{
    let c = with_missing_builtins(cats);
    lemma_with_missing_has(cats, 5);
    assert forall|j: int| 0 <= j < 5 implies #[trigger] normalized_categories(cats)[j].id
        == builtin_ids()[j] by {
        assert(has_category(c, builtin_ids()[j]));
        lemma_has_first(c, builtin_ids()[j]);
    }
}

/// `normalize()` is idempotent: a normalized configuration is its own normalization.
pub proof fn lemma_normalize_idempotent(c: ConfigView)
    ensures
        normalized(normalized(c)) == normalized(c),
{
    let n = normalized(c);
    let cats = n.categories;
    lemma_normalized_builtins_first(c.categories);
    lemma_builtin_ids_distinct();
    // Nothing is missing any more.
    assert forall|j: nat| j <= 5 implies #[trigger] with_missing_upto(cats, j) == cats by {
        lemma_with_missing_fixed(cats, j);
    }
    assert(with_missing_builtins(cats) == cats);
    // Each built-in id first occurs at its canonical position.
    assert forall|j: int| 0 <= j < 5 implies #[trigger] first_index(cats, builtin_ids()[j]) == j by {
        assert(is_first_with_id(cats, builtin_ids()[j], j));
        lemma_first_index(cats, builtin_ids()[j], j);
    }
    // Exactly the first five positions are leading.
    assert forall|i: int| 0 <= i < 5 implies is_leading_builtin(cats, i) by {
        assert(builtin_ids()[i] == cats[i].id);
    }
    assert forall|i: int| 5 <= i < cats.len() implies !is_leading_builtin(cats, i) by {
        if is_builtin_id(cats[i].id) {
            let j = choose|j: int| 0 <= j < 5 && builtin_ids()[j] == cats[i].id;
            assert(cats[j].id == cats[i].id);
        }
    }
    lemma_other_after(cats, 5);
    assert(normalized_categories(cats) =~= cats);
    lemma_dedup_idempotent(c.ignored);
    assert(n.recent.take(min_recent(n.recent.len())) =~= n.recent);
}

proof fn lemma_with_missing_fixed(cats: Seq<CategoryView>, j: nat)
    requires
        j <= 5,
        cats.len() >= 5,
        forall|t: int| 0 <= t < 5 ==> #[trigger] cats[t].id == builtin_ids()[t],
    ensures
        with_missing_upto(cats, j) == cats,
    decreases j,
{
    if j > 0 {
        lemma_with_missing_fixed(cats, (j - 1) as nat);
        assert(cats[j - 1].id == builtin_ids()[j - 1]);
    }
}

/// Every entry of the deduplicated list is an entry of the list it came from.
proof fn lemma_dedup_subset(s: Seq<Seq<char>>)
    ensures
        forall|i: int| 0 <= i < dedup_by_norm(s).len() ==> s.contains(#[trigger] dedup_by_norm(s)[i]),
    decreases s.len(),
{
    if s.len() > 0 {
        let p = s.drop_last();
        lemma_dedup_subset(p);
        assert forall|i: int| 0 <= i < dedup_by_norm(s).len() implies s.contains(
            #[trigger] dedup_by_norm(s)[i],
        ) by {
            if i < dedup_by_norm(p).len() {
                let x = dedup_by_norm(p)[i];
                assert(p.contains(x));
                let k = choose|k: int| 0 <= k < p.len() && p[k] == x;
                assert(s[k] == x);
            } else {
                assert(s[s.len() - 1] == s.last());
            }
        }
    }
}

/// No two entries of the deduplicated list share a normalized path.
proof fn lemma_dedup_distinct(s: Seq<Seq<char>>)
    ensures
        forall|a: int, b: int|
            0 <= a < b < dedup_by_norm(s).len() ==> norm_path_spec(#[trigger] dedup_by_norm(s)[a])
                != norm_path_spec(#[trigger] dedup_by_norm(s)[b]),
    decreases s.len(),
{
    if s.len() > 0 {
        let p = s.drop_last();
        lemma_dedup_distinct(p);
        lemma_dedup_subset(p);
        let d = dedup_by_norm(p);
        if !(exists|j: int| 0 <= j < p.len() && #[trigger] norm_path_spec(p[j]) == norm_path_spec(s.last())) {
            assert forall|a: int, b: int|
                0 <= a < b < dedup_by_norm(s).len() implies norm_path_spec(
                #[trigger] dedup_by_norm(s)[a],
            ) != norm_path_spec(#[trigger] dedup_by_norm(s)[b]) by {
                if b == d.len() {
                    assert(p.contains(d[a]));
                    let k = choose|k: int| 0 <= k < p.len() && p[k] == d[a];
                    assert(norm_path_spec(p[k]) != norm_path_spec(s.last()));
                }
            }
        }
    }
}

/// A list whose entries have pairwise different normalized paths is unchanged by deduplication.
proof fn lemma_dedup_of_distinct(s: Seq<Seq<char>>)
    requires
        forall|a: int, b: int|
            0 <= a < b < s.len() ==> norm_path_spec(#[trigger] s[a]) != norm_path_spec(#[trigger] s[b]),
    ensures
        dedup_by_norm(s) == s,
    decreases s.len(),
{
    if s.len() > 0 {
        let p = s.drop_last();
        assert forall|a: int, b: int| 0 <= a < b < p.len() implies norm_path_spec(#[trigger] p[a])
            != norm_path_spec(#[trigger] p[b]) by {
            assert(p[a] == s[a] && p[b] == s[b]);
        }
        lemma_dedup_of_distinct(p);
        assert forall|j: int| 0 <= j < p.len() implies #[trigger] norm_path_spec(p[j])
            != norm_path_spec(s.last()) by {
            assert(p[j] == s[j]);
            assert(s.last() == s[s.len() - 1]);
        }
        assert(p.push(s.last()) =~= s);
    }
}

proof fn lemma_dedup_idempotent(s: Seq<Seq<char>>)
    ensures
        dedup_by_norm(dedup_by_norm(s)) == dedup_by_norm(s),
{
    lemma_dedup_distinct(s);
    lemma_dedup_of_distinct(dedup_by_norm(s));
}

fn dedup_ignored(list: &Vec<String>) -> (r: Vec<String>)
    ensures
        string_views(r@) == dedup_by_norm(string_views(list@)),
{
    let ghost s = string_views(list@);
    let mut seen: Vec<String> = Vec::new();
    let mut out: Vec<String> = Vec::new();
    let mut i: usize = 0;
    while i < list.len()
        invariant
            i <= list.len(),
            s == string_views(list@),
            seen@.len() == i,
            forall|k: int| 0 <= k < i ==> #[trigger] seen@[k]@ == norm_path_spec(s[k]),
            string_views(out@) == dedup_by_norm(s.take(i as int)),
        decreases list.len() - i,
    {
        let key = norm_path(list[i].as_str());
        let mut dup = false;
        let mut k: usize = 0;
        while k < seen.len()
            invariant
                k <= seen.len(),
                seen@.len() == i,
                key@ == norm_path_spec(s[i as int]),
                forall|m: int| 0 <= m < i ==> #[trigger] seen@[m]@ == norm_path_spec(s[m]),
                dup == exists|m: int| 0 <= m < k && #[trigger] seen@[m]@ == key@,
            decreases seen.len() - k,
        {
            if seen[k] == key {
                dup = true;
            }
            k += 1;
        }
        proof {
            let t = s.take(i as int + 1);
            assert(t.drop_last() =~= s.take(i as int));
            assert(t.last() == s[i as int]);
            if dup {
                let m = choose|m: int| 0 <= m < i && #[trigger] seen@[m]@ == key@;
                assert(t.drop_last()[m] == s[m]);
                assert(norm_path_spec(t.drop_last()[m]) == norm_path_spec(t.last()));
            } else {
                assert forall|m: int| 0 <= m < t.drop_last().len() implies #[trigger] norm_path_spec(
                    t.drop_last()[m],
                ) != norm_path_spec(t.last()) by {
                    assert(seen@[m]@ == norm_path_spec(s[m]));
                }
            }
        }
        let ghost before = string_views(out@);
        if !dup {
            out.push(list[i].clone());
            assert(string_views(out@) =~= before.push(s[i as int]));
        }
        seen.push(key);
        i += 1;
    }
    assert(s.take(i as int) =~= s);
    out
}


/// After `normalize()` the ignore list holds each normalized path once, and
/// only paths that were on it before; the recent list is at most
/// `MAX_RECENT` long.
pub proof fn lemma_normalized_lists(c: ConfigView)
    ensures
        forall|a: int, b: int|
            0 <= a < b < normalized(c).ignored.len() ==> norm_path_spec(#[trigger] normalized(c).ignored[a])
                != norm_path_spec(#[trigger] normalized(c).ignored[b]),
        forall|i: int| 0 <= i < normalized(c).ignored.len() ==> c.ignored.contains(#[trigger] normalized(c).ignored[i]),
        normalized(c).recent.len() <= MAX_RECENT,
{
    lemma_dedup_distinct(c.ignored);
    lemma_dedup_subset(c.ignored);
}

proof fn lemma_other_contains(s: Seq<CategoryView>, i: int)
    requires
        0 <= i < s.len(),
        !is_leading_builtin(s, i),
    ensures
        other_categories(s).contains(s[i]),
    decreases s.len(),
{
    let p = s.drop_last();
    let prev = other_categories(p);
    if i == s.len() - 1 {
        assert(other_categories(s) == prev.push(s.last()));
        assert(other_categories(s)[prev.len() as int] == s[i]);
    } else {
        lemma_leading_prefix(s, s.len() - 1, i);
        assert(p =~= s.take(s.len() - 1));
        assert(p[i] == s[i]);
        lemma_other_contains(p, i);
        let w = choose|w: int| 0 <= w < prev.len() && prev[w] == s[i];
        if is_leading_builtin(s, s.len() - 1) {
            assert(other_categories(s) == prev);
        } else {
            assert(other_categories(s) == prev.push(s.last()));
            assert(other_categories(s)[w] == s[i]);
        }
    }
}

proof fn lemma_with_missing_from(cats: Seq<CategoryView>, j: nat, i: int)
    requires
        j <= 5,
        0 <= i < with_missing_upto(cats, j).len(),
    ensures
        cats.contains(with_missing_upto(cats, j)[i]) || exists|b: int| 0 <= b < 5 && with_missing_upto(cats, j)[i] == fresh_builtin(b),
    decreases j,
{
    if j == 0 {
        assert(cats[i] == with_missing_upto(cats, j)[i]);
    } else {
        let prev = with_missing_upto(cats, (j - 1) as nat);
        if i < prev.len() {
            assert(with_missing_upto(cats, j)[i] == prev[i]);
            lemma_with_missing_from(cats, (j - 1) as nat, i);
        } else {
            assert(with_missing_upto(cats, j)[i] == fresh_builtin(j - 1));
        }
    }
}

proof fn lemma_other_from(s: Seq<CategoryView>, i: int)
    requires
        0 <= i < other_categories(s).len(),
    ensures
        s.contains(other_categories(s)[i]),
    decreases s.len(),
{
    let p = s.drop_last();
    let prev = other_categories(p);
    if i < prev.len() {
        assert(other_categories(s)[i] == prev[i]);
        lemma_other_from(p, i);
        let w = choose|w: int| 0 <= w < p.len() && p[w] == prev[i];
        assert(s[w] == p[w]);
    } else {
        assert(other_categories(s)[i] == s.last());
        assert(s[s.len() - 1] == s.last());
    }
}

/// `normalize()` adds nothing but missing built-in categories, empty: every
/// category it returns is one of the configuration's, untouched, or a fresh
/// built-in one.
pub proof fn lemma_normalize_only_adds_builtins(cats: Seq<CategoryView>, i: int)
    requires
        0 <= i < normalized_categories(cats).len(),
    ensures
        cats.contains(normalized_categories(cats)[i]) || exists|b: int| 0 <= b < 5 && normalized_categories(cats)[i] == fresh_builtin(b),
{
    let c = with_missing_builtins(cats);
    let r = normalized_categories(cats);
    let head = Seq::new(5, |j: int| c[first_index(c, builtin_ids()[j])]);
    assert(r == head + other_categories(c));
    lemma_with_missing_has(cats, 5);
    let k: int = if i < 5 {
        assert(has_category(c, builtin_ids()[i]));
        lemma_has_first(c, builtin_ids()[i]);
        first_index(c, builtin_ids()[i])
    } else {
        lemma_other_from(c, i - 5);
        choose|w: int| 0 <= w < c.len() && c[w] == other_categories(c)[i - 5]
    };
    assert(0 <= k < c.len() && r[i] == c[k]);
    lemma_with_missing_from(cats, 5, k);
}

/// `normalize()` never loses a category: every category of the configuration,
/// with all its items, is still there afterwards (only the order changes, and
/// missing built-in categories are added).
pub proof fn lemma_normalize_keeps_categories(cats: Seq<CategoryView>, i: int)
    requires
        0 <= i < cats.len(),
    ensures
        normalized_categories(cats).contains(cats[i]),
{
    let c = with_missing_builtins(cats);
    lemma_with_missing_has(cats, 5);
    assert(c[i] == cats[i]);
    let r = normalized_categories(cats);
    let head = Seq::new(5, |j: int| c[first_index(c, builtin_ids()[j])]);
    assert(r == head + other_categories(c));
    if is_leading_builtin(c, i) {
        let id = c[i].id;
        let j = choose|j: int| 0 <= j < builtin_ids().len() && builtin_ids()[j] == id;
        assert(is_first_with_id(c, id, i));
        lemma_first_index(c, id, i);
        assert(builtin_ids().len() == 5);
        assert(r[j] == c[i]);
    } else {
        lemma_other_contains(c, i);
        let w = choose|w: int| 0 <= w < other_categories(c).len() && other_categories(c)[w] == c[i];
        assert(r[5 + w] == c[i]);
    }
}

} // verus!
