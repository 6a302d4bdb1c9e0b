//! The configuration model: categories of items, recent entries, settings and
//! the list of ignored desktop paths, with the rules that keep it consistent.
use vstd::prelude::*;
use vstd::utf8::encode_utf8;

use crate::text::{
    ascii_lower, ascii_lower_char, trim, trimmed, ascii_lower_seq, chars_of, decimal, hex_digits, owned, push_char, push_decimal,
    push_hex, same_chars, string_of, string_of_range,
};

verus! {

/// The category that mirrors the desktop. Managed by the sync engine, always first.
pub const DESKTOP_CATEGORY: (&'static str, &'static str) = ("desktop", "桌面");

/// The four fixed manual categories. Like the desktop category, `normalize()`
/// keeps them present; they cannot be renamed or removed.
pub const DEFAULT_CATEGORIES: [(&'static str, &'static str); 4] = [
    ("study", "学习"),
    ("project", "项目"),
    ("mad", "MAD"),
    ("fun", "娱乐"),
];

/// Longest allowed name of a user category, in characters (not bytes).
pub const MAX_CATEGORY_NAME: usize = 10;

/// Longest recent list.
pub const MAX_RECENT: usize = 20;

/// Current layout version of the configuration. Old files without the key count as 1.
pub const SCHEMA_VERSION: u32 = 2;

/// Layout version assumed when a stored configuration does not name one.
pub fn default_schema_version() -> (v: u32)
    ensures
        v == 1,
{
    1
}

#[derive(Debug, Clone, Copy, PartialEq, Eq, Structural)]
pub enum ItemKind {
    Folder,
    App,
    File,
}

/// Where an item came from, which decides who manages it.
#[derive(Debug, Clone, Copy, PartialEq, Eq, Structural)]
pub enum ItemSource {
    /// Dropped in by the user. The sync engine never touches it.
    Manual,
    /// Produced by the desktop scan. Its lifetime belongs to the sync engine.
    Desktop,
}

impl Default for ItemSource {
    /// Items stored without a source are manual, so the sync engine leaves them alone.
    fn default() -> (s: Self)
        ensures
            s == ItemSource::Manual,
    {
        ItemSource::Manual
    }
}

#[derive(Debug)]
pub struct Item {
    pub id: String,
    pub name: String,
    pub path: String,
    pub kind: ItemKind,
    pub source: ItemSource,
}

pub struct ItemView {
    pub id: Seq<char>,
    pub name: Seq<char>,
    pub path: Seq<char>,
    pub kind: ItemKind,
    pub source: ItemSource,
}

impl View for Item {
    type V = ItemView;

    open spec fn view(&self) -> ItemView {
        ItemView {
            id: self.id@,
            name: self.name@,
            path: self.path@,
            kind: self.kind,
            source: self.source,
        }
    }
}

impl Clone for Item {
    fn clone(&self) -> (r: Self)
        ensures
            r == *self,
    {
        Item {
            id: self.id.clone(),
            name: self.name.clone(),
            path: self.path.clone(),
            kind: self.kind,
            source: self.source,
        }
    }
}

#[derive(Debug)]
pub struct Category {
    pub id: String,
    pub name: String,
    pub items: Vec<Item>,
}

pub struct CategoryView {
    pub id: Seq<char>,
    pub name: Seq<char>,
    pub items: Seq<ItemView>,
}

pub open spec fn item_views(items: Seq<Item>) -> Seq<ItemView> {
    items.map_values(|i: Item| i@)
}

impl View for Category {
    type V = CategoryView;

    open spec fn view(&self) -> CategoryView {
        CategoryView { id: self.id@, name: self.name@, items: item_views(self.items@) }
    }
}

impl Clone for Category {
    fn clone(&self) -> (r: Self)
        ensures
            r@ == self@,
    {
        let items = self.items.clone();
        assert forall|i: int| 0 <= i < items.len() implies items@[i] == self.items@[i] by {
            assert(cloned::<Item>(self.items[i], items[i]));
        }
        assert(items@ =~= self.items@);
        Category { id: self.id.clone(), name: self.name.clone(), items }
    }
}

#[derive(Debug)]
pub struct Recent {
    pub name: String,
    pub path: String,
    pub at: u64,
}

pub struct RecentView {
    pub name: Seq<char>,
    pub path: Seq<char>,
    pub at: u64,
}

impl View for Recent {
    type V = RecentView;

    open spec fn view(&self) -> RecentView {
        RecentView { name: self.name@, path: self.path@, at: self.at }
    }
}

impl Clone for Recent {
    fn clone(&self) -> (r: Self)
        ensures
            r == *self,
    {
        Recent { name: self.name.clone(), path: self.path.clone(), at: self.at }
    }
}

/// Window and desktop-icon settings.
#[derive(Debug, Clone, Copy, PartialEq, Eq, Structural)]
pub struct Settings {
    pub autostart: bool,
    pub auto_hide: bool,
    /// Whether the user asked for the desktop icons to be hidden.
    pub hide_desktop_icons: bool,
    /// Whether the icons are currently hidden because this program hid them.
    pub desktop_icons_owned_by_us: bool,
    /// Whether the icons were visible before this program hid them.
    pub desktop_icons_were_visible: bool,
}

pub open spec fn default_settings() -> Settings {
    Settings {
        autostart: false,
        auto_hide: true,
        hide_desktop_icons: false,
        desktop_icons_owned_by_us: false,
        desktop_icons_were_visible: true,
    }
}

impl Default for Settings {
    fn default() -> (s: Self)
        ensures
            s == default_settings(),
    {
        Settings {
            autostart: false,
            auto_hide: true,
            hide_desktop_icons: false,
            desktop_icons_owned_by_us: false,
            desktop_icons_were_visible: true,
        }
    }
}

#[derive(Debug)]
pub struct AppConfig {
    pub schema_version: u32,
    pub categories: Vec<Category>,
    pub recent: Vec<Recent>,
    pub settings: Settings,
    /// Desktop paths the user removed and that must not be imported again (normalized).
    pub ignored: Vec<String>,
}

pub struct ConfigView {
    pub schema_version: u32,
    pub categories: Seq<CategoryView>,
    pub recent: Seq<RecentView>,
    pub settings: Settings,
    pub ignored: Seq<Seq<char>>,
}

pub open spec fn category_views(cats: Seq<Category>) -> Seq<CategoryView> {
    cats.map_values(|c: Category| c@)
}

pub open spec fn recent_views(r: Seq<Recent>) -> Seq<RecentView> {
    r.map_values(|x: Recent| x@)
}

pub open spec fn string_views(s: Seq<String>) -> Seq<Seq<char>> {
    s.map_values(|x: String| x@)
}

impl View for AppConfig {
    type V = ConfigView;

    open spec fn view(&self) -> ConfigView {
        ConfigView {
            schema_version: self.schema_version,
            categories: category_views(self.categories@),
            recent: recent_views(self.recent@),
            settings: self.settings,
            ignored: string_views(self.ignored@),
        }
    }
}

impl Clone for AppConfig {
    fn clone(&self) -> (r: Self)
        ensures
            r@ == self@,
    {
        let categories = self.categories.clone();
        assert forall|i: int| 0 <= i < categories.len() implies categories@[i]@
            == self.categories@[i]@ by {
            assert(cloned::<Category>(self.categories[i], categories[i]));
        }
        assert(category_views(categories@) =~= category_views(self.categories@));
        let recent = self.recent.clone();
        assert forall|i: int| 0 <= i < recent.len() implies recent@[i] == self.recent@[i] by {
            assert(cloned::<Recent>(self.recent[i], recent[i]));
        }
        assert(recent@ =~= self.recent@);
        let ignored = self.ignored.clone();
        assert forall|i: int| 0 <= i < ignored.len() implies ignored@[i] == self.ignored@[i] by {
            assert(cloned::<String>(self.ignored[i], ignored[i]));
        }
        assert(ignored@ =~= self.ignored@);
        AppConfig {
            schema_version: self.schema_version,
            categories,
            recent,
            settings: self.settings,
            ignored,
        }
    }
}

// ---------------------------------------------------------------------------
// Built-in categories

pub open spec fn desktop_id_chars() -> Seq<char> {
    seq!['d', 'e', 's', 'k', 't', 'o', 'p']
}

/// Ids of the built-in categories, in their canonical order.
pub open spec fn builtin_ids() -> Seq<Seq<char>> {
    seq![
        desktop_id_chars(),
        seq!['s', 't', 'u', 'd', 'y'],
        seq!['p', 'r', 'o', 'j', 'e', 'c', 't'],
        seq!['m', 'a', 'd'],
        seq!['f', 'u', 'n'],
    ]
}

/// Names of the built-in categories, in their canonical order.
pub open spec fn builtin_names() -> Seq<Seq<char>> {
    seq![
        seq!['桌', '面'],
        seq!['学', '习'],
        seq!['项', '目'],
        seq!['M', 'A', 'D'],
        seq!['娱', '乐'],
    ]
}

pub open spec fn is_builtin_id(id: Seq<char>) -> bool {
    builtin_ids().contains(id)
}

/// Id and name of the `j`-th built-in category.
pub fn builtin_category(j: usize) -> (r: (String, String))
    requires
        j < 5,
    ensures
        r.0@ == builtin_ids()[j as int],
        r.1@ == builtin_names()[j as int],
{
    let pair = if j == 0 {
        DESKTOP_CATEGORY
    } else {
        DEFAULT_CATEGORIES[j - 1]
    };
    let id = owned(pair.0);
    let name = owned(pair.1);
    proof {
        reveal_strlit("desktop");
        reveal_strlit("桌面");
        reveal_strlit("study");
        reveal_strlit("学习");
        reveal_strlit("project");
        reveal_strlit("项目");
        reveal_strlit("mad");
        reveal_strlit("MAD");
        reveal_strlit("fun");
        reveal_strlit("娱乐");
    }
    (id, name)
}

/// Built-in categories: the desktop one plus the four fixed ones. `normalize()`
/// keeps them present, so they can be neither removed nor renamed.
pub fn is_builtin_category(id: &str) -> (r: bool)
    ensures
        r == is_builtin_id(id@),
{
    let mut j: usize = 0;
    while j < 5
        invariant
            j <= 5,
            forall|k: int| 0 <= k < j ==> builtin_ids()[k] != id@,
        decreases 5 - j,
    {
        let (bid, _) = builtin_category(j);
        if same_chars(bid.as_str(), id) {
            assert(builtin_ids()[j as int] == id@);
            return true;
        }
        j += 1;
    }
    assert(!builtin_ids().contains(id@)) by {
        if builtin_ids().contains(id@) {
            let k = choose|k: int| 0 <= k < 5 && builtin_ids()[k] == id@;
            assert(builtin_ids()[k] != id@);
        }
    }
    false
}

// ---------------------------------------------------------------------------
// Path identity

pub open spec fn is_sep(c: char) -> bool {
    c == '\\' || c == '/'
}

pub open spec fn to_backslash(c: char) -> char {
    if c == '/' {
        '\\'
    } else {
        c
    }
}

/// `s` without its trailing backslashes.
pub open spec fn trim_trailing_backslashes(s: Seq<char>) -> Seq<char>
    decreases s.len(),
{
    if s.len() > 0 && s.last() == '\\' {
        trim_trailing_backslashes(s.drop_last())
    } else {
        s
    }
}

/// The identity key of a path: `/` becomes `\`, trailing `\` go, ASCII letters
/// are lower-cased. Pure string processing; the disk is never consulted.
pub open spec fn norm_path_spec(p: Seq<char>) -> Seq<char> {
    ascii_lower_seq(trim_trailing_backslashes(Seq::new(p.len(), |i: int| to_backslash(p[i]))))
}

proof fn lemma_trim_trailing_at(s: Seq<char>, k: int)
    requires
        0 <= k <= s.len(),
        forall|j: int| k <= j < s.len() ==> #[trigger] s[j] == '\\',
    ensures
        trim_trailing_backslashes(s) == trim_trailing_backslashes(s.subrange(0, k)),
    decreases s.len() - k,
{
    if k < s.len() {
        lemma_trim_trailing_at(s.drop_last(), k);
        assert(s.drop_last().subrange(0, k) =~= s.subrange(0, k));
    } else {
        assert(s.subrange(0, k) =~= s);
    }
}

/// The identity key of a desktop item. Pure string processing — never
/// `canonicalize()`, which touches the disk, fails on just-deleted paths and
/// expands 8.3 short names.
pub fn norm_path(p: &str) -> (r: String)
    ensures
        r@ == norm_path_spec(p@),
{
    let v = chars_of(p);
    let ghost mapped = Seq::new(p@.len(), |i: int| to_backslash(p@[i]));
    let mut end: usize = v.len();
    while end > 0 && (v[end - 1] == '\\' || v[end - 1] == '/')
        invariant
            end <= v.len(),
            v@ == p@,
            mapped == Seq::new(p@.len(), |i: int| to_backslash(p@[i])),
            forall|j: int| end <= j < v.len() ==> #[trigger] mapped[j] == '\\',
        decreases end,
    {
        end -= 1;
    }
    proof {
        lemma_trim_trailing_at(mapped, end as int);
        let t = mapped.subrange(0, end as int);
        if t.len() > 0 {
            assert(t.last() == mapped[end - 1]);
        }
        assert(trim_trailing_backslashes(t) == t);
    }
    let mut out = String::new();
    let mut i: usize = 0;
    while i < end
        invariant
            i <= end <= v.len(),
            v@ == p@,
            mapped == Seq::new(p@.len(), |i: int| to_backslash(p@[i])),
            out@ == ascii_lower_seq(mapped.subrange(0, i as int)),
        decreases end - i,
    {
        let c = if v[i] == '/' {
            '\\'
        } else {
            v[i]
        };
        push_char(&mut out, ascii_lower_char(c));
        assert(ascii_lower_seq(mapped.subrange(0, i as int + 1)) =~= ascii_lower_seq(
            mapped.subrange(0, i as int),
        ).push(ascii_lower(c)));
        i += 1;
    }
    out
}

proof fn lemma_trim_trailing_shape(s: Seq<char>)
    ensures
        trim_trailing_backslashes(s).len() <= s.len(),
        forall|i: int| 0 <= i < trim_trailing_backslashes(s).len() ==> #[trigger] trim_trailing_backslashes(s)[i] == s[i],
        trim_trailing_backslashes(s).len() > 0 ==> trim_trailing_backslashes(s).last() != '\\',
    decreases s.len(),
{
    if s.len() > 0 && s.last() == '\\' {
        lemma_trim_trailing_shape(s.drop_last());
    }
}

/// The identity key is a fixed point: normalizing a key gives the key back.
/// (Two spellings of a path that normalize alike keep normalizing alike.)
pub proof fn lemma_norm_path_idempotent(p: Seq<char>)
    ensures
        norm_path_spec(norm_path_spec(p)) == norm_path_spec(p),
{
    let m = Seq::new(p.len(), |i: int| to_backslash(p[i]));
    let t = trim_trailing_backslashes(m);
    let l = ascii_lower_seq(t);
    lemma_trim_trailing_shape(m);
    assert forall|i: int| 0 <= i < l.len() implies #[trigger] l[i] != '/' && ascii_lower(l[i]) == l[i] by {
        assert(t[i] == m[i]);
    }
    let m2 = Seq::new(l.len(), |i: int| to_backslash(l[i]));
    assert(m2 =~= l);
    assert(trim_trailing_backslashes(l) == l) by {
        if l.len() > 0 {
            assert(l.last() == ascii_lower(t.last()));
        }
    }
    assert(ascii_lower_seq(l) =~= l);
}

/// A desktop item's id depends only on the normalized path: every spelling of
/// the same path (separators, letter case, trailing separators) gets the same id.
pub proof fn lemma_desktop_id_stable(a: Seq<char>, b: Seq<char>)
    requires
        norm_path_spec(a) == norm_path_spec(b),
    ensures
        desktop_id_spec(a) == desktop_id_spec(b),
{
}

/// FNV-1a, 64-bit, over `bytes`.
pub open spec fn fnv1a64_spec(bytes: Seq<u8>) -> u64
    decreases bytes.len(),
{
    if bytes.len() == 0 {
        0xcbf2_9ce4_8422_2325u64
    } else {
        (fnv1a64_spec(bytes.drop_last()) ^ (bytes.last() as u64)).wrapping_mul(
            0x0000_0100_0000_01b3u64,
        )
    }
}

fn fnv1a64(bytes: &[u8]) -> (h: u64)
    ensures
        h == fnv1a64_spec(bytes@),
{
    let mut h: u64 = 0xcbf2_9ce4_8422_2325;
    let mut i: usize = 0;
    while i < bytes.len()
        invariant
            i <= bytes.len(),
            h == fnv1a64_spec(bytes@.take(i as int)),
        decreases bytes.len() - i,
    {
        assert(bytes@.take(i as int + 1).drop_last() =~= bytes@.take(i as int));
        h ^= bytes[i] as u64;
        h = h.wrapping_mul(0x0000_0100_0000_01b3);
        i += 1;
    }
    assert(bytes@.take(bytes.len() as int) =~= bytes@);
    h
}

/// `d` followed by the 16 lower-case hex digits of the FNV-1a hash of the
/// UTF-8 bytes of the normalized path.
pub open spec fn desktop_id_spec(path: Seq<char>) -> Seq<char> {
    seq!['d'] + hex_digits(fnv1a64_spec(encode_utf8(norm_path_spec(path))) as nat, 16)
}

/// The id of a desktop item is derived from its path: removing it and adding it
/// back gives the same id, so references from the recent list stay valid.
pub fn desktop_id(path: &str) -> (r: String)
    ensures
        r@ == desktop_id_spec(path@),
{
    let key = norm_path(path);
    let h = fnv1a64(key.as_str().as_bytes());
    let mut out = String::new();
    push_char(&mut out, 'd');
    push_hex(&mut out, h, 16);
    out
}

// ---------------------------------------------------------------------------
// Time-based ids

#[verifier::external_type_specification]
#[verifier::external_body]
pub struct ExSystemTime(std::time::SystemTime);

/// `SystemTime::now()`: the current wall-clock time; nothing is known of it.
#[verifier::external_body]
fn clock_now() -> std::time::SystemTime {
    std::time::SystemTime::now()
}

/// `SystemTime::duration_since(UNIX_EPOCH)`: the time elapsed since the Unix
/// epoch, `None` for a time before it. Nothing is claimed of the value.
#[verifier::external_body]
fn since_epoch(t: std::time::SystemTime) -> Option<std::time::Duration> {
    t.duration_since(std::time::UNIX_EPOCH).ok()
}

/// `Duration::as_nanos`. Nothing is claimed of the value.
#[verifier::external_body]
fn whole_nanos(d: std::time::Duration) -> u128 {
    d.as_nanos()
}

/// `Duration::as_secs`. Nothing is claimed of the value.
#[verifier::external_body]
fn whole_secs(d: std::time::Duration) -> u64 {
    d.as_secs()
}

/// Nanoseconds since the Unix epoch (0 if the clock is set before it).
fn nanos() -> u128 {
    match since_epoch(clock_now()) {
        Some(d) => whole_nanos(d),
        None => 0,
    }
}

/// The current time in seconds since the Unix epoch (0 if the clock is set
/// before it): when a recent entry was opened, and the suffix of a
/// quarantined configuration's name.
pub fn now() -> u64 {
    match since_epoch(clock_now()) {
        Some(d) => whole_secs(d),
        None => 0,
    }
}

/// `prefix` followed by the decimal digits of some clock reading.
pub open spec fn is_clock_id(id: Seq<char>, prefix: char) -> bool {
    exists|n: u128| id == seq![prefix] + decimal(n as nat)
}

/// An item id: `i` followed by the current time in nanoseconds.
pub fn uid() -> (r: String)
    ensures
        is_clock_id(r@, 'i'),
{
    clock_id('i', nanos())
}

/// `prefix` followed by the decimal digits of `n`.
fn clock_id(prefix: char, n: u128) -> (r: String)
    ensures
        r@ == seq![prefix] + decimal(n as nat),
{
    let mut out = String::new();
    push_char(&mut out, prefix);
    push_decimal(&mut out, n);
    out
}

/// A user category id: `u` followed by the current time in nanoseconds, so a
/// user-made category is recognisable in the file at a glance.
pub fn category_uid() -> (r: String)
    ensures
        is_clock_id(r@, 'u'),
{
    clock_id('u', nanos())
}

// ---------------------------------------------------------------------------
// User categories

/// "名字不能为空"
pub open spec fn msg_name_empty() -> Seq<char> {
    seq!['名', '字', '不', '能', '为', '空']
}

/// "名字最多 10 个字"
pub open spec fn msg_name_too_long() -> Seq<char> {
    seq!['名', '字', '最', '多', ' '] + decimal(MAX_CATEGORY_NAME as nat) + seq![' ', '个', '字']
}

/// "已经有叫「<name>」的分类了"
pub open spec fn msg_name_taken(name: Seq<char>) -> Seq<char> {
    seq!['已', '经', '有', '叫', '「'] + name + seq!['」', '的', '分', '类', '了']
}

/// "内置分类不能改名"
pub open spec fn msg_builtin_rename() -> Seq<char> {
    seq!['内', '置', '分', '类', '不', '能', '改', '名']
}

/// "内置分类不能删除"
pub open spec fn msg_builtin_remove() -> Seq<char> {
    seq!['内', '置', '分', '类', '不', '能', '删', '除']
}

/// "分类不存在"
pub open spec fn msg_no_category() -> Seq<char> {
    seq!['分', '类', '不', '存', '在']
}

/// The cleaned name of a user category, or the reason it is refused: blank
/// names and names longer than `MAX_CATEGORY_NAME` characters. Only surrounding
/// whitespace is removed; a name is never silently shortened.
pub open spec fn clean_name_spec(raw: Seq<char>) -> Result<Seq<char>, Seq<char>> {
    let name = trimmed(raw);
    if name.len() == 0 {
        Err(msg_name_empty())
    } else if name.len() > MAX_CATEGORY_NAME {
        Err(msg_name_too_long())
    } else {
        Ok(name)
    }
}

pub open spec fn result_view(r: Result<String, String>) -> Result<Seq<char>, Seq<char>> {
    match r {
        Ok(s) => Ok(s@),
        Err(e) => Err(e@),
    }
}

fn clean_name(raw: &str) -> (r: Result<String, String>)
    ensures
        result_view(r) == clean_name_spec(raw@),
{
    let name = trim(raw);
    let count = chars_of(name.as_str()).len();
    if count == 0 {
        let m = owned("名字不能为空");
        proof {
            reveal_strlit("名字不能为空");
            assert(m@ =~= msg_name_empty());
        }
        return Err(m);
    }
    if count > MAX_CATEGORY_NAME {
        let mut m = owned("名字最多 ");
        push_decimal(&mut m, MAX_CATEGORY_NAME as u128);
        let tail = owned(" 个字");
        let m = m.concat(tail.as_str());
        proof {
            reveal_strlit("名字最多 ");
            reveal_strlit(" 个字");
            reveal_with_fuel(decimal, 2);
            assert(m@ =~= msg_name_too_long());
        }
        return Err(m);
    }
    Ok(name)
}

/// Some category other than `except` already has this name.
pub open spec fn name_taken_spec(
    cats: Seq<CategoryView>,
    name: Seq<char>,
    except: Option<Seq<char>>,
) -> bool {
    exists|i: int|
        0 <= i < cats.len() && #[trigger] cats[i].name == name && Some(cats[i].id) != except
}

pub open spec fn opt_view(o: Option<&str>) -> Option<Seq<char>> {
    match o {
        Some(s) => Some(s@),
        None => None,
    }
}

/// Two user categories with the same name would look like a bug in the side
/// bar, so a second one is refused.
fn name_taken(cfg: &AppConfig, name: &String, except_id: Option<&str>) -> (r: bool)
    ensures
        r == name_taken_spec(cfg@.categories, name@, opt_view(except_id)),
{
    let except = match except_id {
        Some(e) => Some(owned(e)),
        None => None,
    };
    let mut i: usize = 0;
    while i < cfg.categories.len()
        invariant
            i <= cfg.categories.len(),
            except matches Some(e) ==> opt_view(except_id) == Some(e@),
            except is None ==> except_id is None,
            forall|j: int|
                0 <= j < i ==> !(#[trigger] cfg@.categories[j].name == name@ && Some(
                    cfg@.categories[j].id,
                ) != opt_view(except_id)),
        decreases cfg.categories.len() - i,
    {
        let c = &cfg.categories[i];
        let excluded = match &except {
            Some(e) => c.id == *e,
            None => false,
        };
        if c.name == *name && !excluded {
            assert(cfg@.categories[i as int].name == name@);
            return true;
        }
        i += 1;
    }
    false
}

/// `k` is the index of the first category with this id.
pub open spec fn is_first_with_id(cats: Seq<CategoryView>, id: Seq<char>, k: int) -> bool {
    &&& 0 <= k < cats.len()
    &&& cats[k].id == id
    &&& forall|j: int| 0 <= j < k ==> #[trigger] cats[j].id != id
}

pub open spec fn has_category(cats: Seq<CategoryView>, id: Seq<char>) -> bool {
    exists|i: int| 0 <= i < cats.len() && #[trigger] cats[i].id == id
}

/// Finds the first category with this id.
pub fn find_category(cats: &Vec<Category>, id: &String) -> (r: Option<usize>)
    ensures
        match r {
            Some(i) => i < cats.len() && cats@[i as int]@.id == id@ && forall|j: int|
                0 <= j < i ==> #[trigger] cats@[j]@.id != id@,
            None => !has_category(category_views(cats@), id@),
        },
{
    let mut i: usize = 0;
    while i < cats.len()
        invariant
            i <= cats.len(),
            forall|j: int| 0 <= j < i ==> #[trigger] cats@[j]@.id != id@,
        decreases cats.len() - i,
    {
        if cats[i].id == *id {
            return Some(i);
        }
        i += 1;
    }
    assert(!has_category(category_views(cats@), id@)) by {
        if has_category(category_views(cats@), id@) {
            let k = choose|k: int| 0 <= k < cats.len() && #[trigger] category_views(cats@)[k].id == id@;
            assert(cats@[k]@.id != id@);
        }
    }
    None
}

/// `len` distinct numbers below `n` need `n` to be at least `len`.
proof fn lemma_pigeonhole(s: Seq<int>, n: int)
    requires
        s.no_duplicates(),
        0 <= n,
        forall|j: int| 0 <= j < s.len() ==> 0 <= #[trigger] s[j] < n,
    ensures
        s.len() <= n,
{
    s.unique_seq_to_set();
    vstd::set_lib::lemma_int_range(0, n);
    assert(s.to_set().subset_of(vstd::set_lib::set_int_range(0, n)));
    vstd::set_lib::lemma_len_subset(s.to_set(), vstd::set_lib::set_int_range(0, n));
}

/// Creates an empty user category and returns its id. Only an empty mapping
/// container is created; the file system is not touched.
///
/// Refused names leave the configuration as it was. Otherwise the new category
/// goes last, with a clock-derived id that no category has: a reading that
/// names an existing category is stepped up to the next free number, so an
/// accepted name always gets its category.
pub fn add_category(cfg: &mut AppConfig, raw_name: &str) -> (r: Result<String, String>)
    ensures
        ({
            let old_cats = old(cfg)@.categories;
            let new_cats = final(cfg)@.categories;
            match clean_name_spec(raw_name@) {
                Err(msg) => r matches Err(e) && e@ == msg && final(cfg)@ == old(cfg)@,
                Ok(name) => if name_taken_spec(old_cats, name, None) {
                    r matches Err(e) && e@ == msg_name_taken(name) && final(cfg)@ == old(cfg)@
                } else {
                    &&& r matches Ok(id)
                    &&& is_clock_id(id@, 'u')
                    &&& !has_category(old_cats, id@)
                    &&& new_cats == old_cats.push(CategoryView { id: id@, name, items: seq![] })
                    &&& final(cfg)@.recent == old(cfg)@.recent
                    &&& final(cfg)@.ignored == old(cfg)@.ignored
                    &&& final(cfg)@.settings == old(cfg)@.settings
                    &&& final(cfg)@.schema_version == old(cfg)@.schema_version
                },
            }
        }),
{
    let name = match clean_name(raw_name) {
        Ok(n) => n,
        Err(e) => return Err(e),
    };
    if name_taken(cfg, &name, None) {
        return Err(taken_message(&name));
    }
    // Nanosecond readings can in principle collide. Among `len + 1`
    // consecutive numbers one names no category, so stepping up from the
    // reading (from 0 when there is no room above it) always ends.
    let len = cfg.categories.len();
    let mut n = nanos();
    if n > u128::MAX - len as u128 {
        n = 0;
    }
    let ghost start = n as int;
    let ghost mut seen: Seq<int> = seq![];
    let mut id = clock_id('u', n);
    let mut found = find_category(&cfg.categories, &id);
    while found.is_some()
        invariant
            len == cfg.categories.len(),
            0 <= start <= n <= start + len,
            start + len <= u128::MAX,
            n - start == seen.len(),
            seen.no_duplicates(),
            forall|j: int|
                0 <= j < seen.len() ==> 0 <= #[trigger] seen[j] < len && cfg.categories@[seen[j]]@.id
                    == seq!['u'] + decimal((start + j) as nat),
            id@ == seq!['u'] + decimal(n as nat),
            match found {
                Some(k) => k < cfg.categories.len() && cfg.categories@[k as int]@.id == id@,
                None => !has_category(category_views(cfg.categories@), id@),
            },
        decreases start + len - n,
    {
        let k = match found {
            Some(k) => k,
            None => 0,
        };
        proof {
            assert forall|j: int| 0 <= j < seen.len() implies seen[j] != k as int by {
                if seen[j] == k as int {
                    assert(found == Some(k));
                    assert(cfg.categories@[k as int]@.id == id@);
                    let a = decimal(n as nat);
                    let b = decimal((start + j) as nat);
                    assert(cfg.categories@[seen[j]]@.id == seq!['u'] + b);
                    assert(seq!['u'] + a == seq!['u'] + b);
                    assert((seq!['u'] + a).skip(1) =~= a);
                    assert((seq!['u'] + b).skip(1) =~= b);
                    assert(a == b);
                    crate::text::lemma_decimal_injective(n as nat, (start + j) as nat);
                    assert(n == start + j);
                }
            }
            let seen2 = seen.push(k as int);
            assert(seen2.no_duplicates()) by {
                assert forall|x: int, y: int| 0 <= x < seen2.len() && 0 <= y < seen2.len() && x != y implies seen2[x] != seen2[y] by {
                    if x < seen.len() && y < seen.len() {
                        assert(seen[x] != seen[y]);
                    }
                }
            }
            lemma_pigeonhole(seen2, len as int);
            seen = seen2;
        }
        n = n + 1;
        id = clock_id('u', n);
        found = find_category(&cfg.categories, &id);
    }
    let ghost before = cfg@;
    let ghost name_v = name@;
    let cat = Category { id: id.clone(), name, items: Vec::new() };
    assert(cat@ == CategoryView { id: id@, name: name_v, items: seq![] }) by {
        assert(item_views(cat.items@) =~= Seq::<ItemView>::empty());
    }
    cfg.categories.push(cat);
    proof {
        assert(category_views(cfg.categories@) =~= before.categories.push(
            CategoryView { id: id@, name: name_v, items: seq![] },
        ));
    }
    Ok(id)
}

fn taken_message(name: &String) -> (m: String)
    ensures
        m@ == msg_name_taken(name@),
{
    let m = owned("已经有叫「");
    let m = m.concat(name.as_str());
    let m = m.concat("」的分类了");
    proof {
        reveal_strlit("已经有叫「");
        reveal_strlit("」的分类了");
    }
    m
}

/// The same category under another name.
pub open spec fn renamed(c: CategoryView, name: Seq<char>) -> CategoryView {
    CategoryView { id: c.id, name, items: c.items }
}

/// Renames a user category. Built-in categories keep their names (they would be
/// renamed back by `normalize()` on the next load).
pub fn rename_category(cfg: &mut AppConfig, id: &str, raw_name: &str) -> (r: Result<(), String>)
    ensures
        ({
            let old_cats = old(cfg)@.categories;
            if is_builtin_id(id@) {
                r matches Err(e) && e@ == msg_builtin_rename() && final(cfg)@ == old(cfg)@
            } else {
                match clean_name_spec(raw_name@) {
                    Err(msg) => r matches Err(e) && e@ == msg && final(cfg)@ == old(cfg)@,
                    Ok(name) => if name_taken_spec(old_cats, name, Some(id@)) {
                        r matches Err(e) && e@ == msg_name_taken(name) && final(cfg)@
                            == old(cfg)@
                    } else if !has_category(old_cats, id@) {
                        r matches Err(e) && e@ == msg_no_category() && final(cfg)@ == old(cfg)@
                    } else {
                        &&& r is Ok
                        &&& exists|k: int|
                            is_first_with_id(old_cats, id@, k) && final(cfg)@.categories
                                == old_cats.update(k, renamed(old_cats[k], name))
                        &&& final(cfg)@.recent == old(cfg)@.recent
                        &&& final(cfg)@.ignored == old(cfg)@.ignored
                        &&& final(cfg)@.settings == old(cfg)@.settings
                        &&& final(cfg)@.schema_version == old(cfg)@.schema_version
                    }
                }
            }
        }),
{
    if is_builtin_category(id) {
        let m = owned("内置分类不能改名");
        proof {
            reveal_strlit("内置分类不能改名");
            assert(m@ =~= msg_builtin_rename());
        }
        return Err(m);
    }
    let name = match clean_name(raw_name) {
        Ok(n) => n,
        Err(e) => return Err(e),
    };
    if name_taken(cfg, &name, Some(id)) {
        return Err(taken_message(&name));
    }
    let key = owned(id);
    let k = match find_category(&cfg.categories, &key) {
        Some(k) => k,
        None => {
            let m = owned("分类不存在");
            proof {
                reveal_strlit("分类不存在");
                assert(m@ =~= msg_no_category());
            }
            return Err(m);
        },
    };
    let ghost before = cfg@;
    let ghost name_v = name@;
    let mut cat = cfg.categories.remove(k);
    cat.name = name;
    cfg.categories.insert(k, cat);
    proof {
        assert(category_views(cfg.categories@) =~= before.categories.update(
            k as int,
            renamed(before.categories[k as int], name_v),
        ));
        assert(is_first_with_id(before.categories, id@, k as int));
    }
    Ok(())
}

/// Categories whose id is not `id`.
pub open spec fn id_other_than(id: Seq<char>) -> spec_fn(CategoryView) -> bool {
    |c: CategoryView| c.id != id
}

/// Removes a user category. Only the mapping goes; no file is touched. Its
/// desktop items are not put on the ignore list: the next sync finds them
/// unclaimed and puts them back into the desktop category.
pub fn remove_category(cfg: &mut AppConfig, id: &str) -> (r: Result<(), String>)
    ensures
        ({
            let old_cats = old(cfg)@.categories;
            if is_builtin_id(id@) {
                r matches Err(e) && e@ == msg_builtin_remove() && final(cfg)@ == old(cfg)@
            } else if !has_category(old_cats, id@) {
                r matches Err(e) && e@ == msg_no_category() && final(cfg)@ == old(cfg)@
            } else {
                &&& r is Ok
                &&& final(cfg)@.categories == old_cats.filter(id_other_than(id@))
                &&& final(cfg)@.recent == old(cfg)@.recent
                &&& final(cfg)@.ignored == old(cfg)@.ignored
                &&& final(cfg)@.settings == old(cfg)@.settings
                &&& final(cfg)@.schema_version == old(cfg)@.schema_version
            }
        }),
{
    if is_builtin_category(id) {
        let m = owned("内置分类不能删除");
        proof {
            reveal_strlit("内置分类不能删除");
            assert(m@ =~= msg_builtin_remove());
        }
        return Err(m);
    }
    let key = owned(id);
    match find_category(&cfg.categories, &key) {
        None => {
            let m = owned("分类不存在");
            proof {
                reveal_strlit("分类不存在");
                assert(m@ =~= msg_no_category());
            }
            return Err(m);
        },
        Some(k) => {
            assert(cfg@.categories[k as int].id == id@);
        },
    }
    let ghost before = cfg@;
    let mut rest: Vec<Category> = Vec::new();
    std::mem::swap(&mut rest, &mut cfg.categories);
    let ghost all = rest@;
    let mut kept: Vec<Category> = Vec::new();
    let ghost pred = id_other_than(id@);
    let ghost mut i: int = 0;
    while rest.len() > 0
        invariant
            0 <= i,
            all.len() == i + rest@.len(),
            rest@ == all.subrange(i as int, all.len() as int),
            category_views(kept@) == category_views(all.take(i as int)).filter(pred),
            key@ == id@,
            pred == id_other_than(id@),
        decreases rest.len(),
    {
        let c = rest.remove(0);
        proof {
            let pre = category_views(all.take(i));
            assert(category_views(all.take(i + 1)) =~= pre.push(c@));
            pre.lemma_filter_push(c@, pred);
        }
        let ghost kept_before = kept@;
        if c.id != key {
            kept.push(c);
            assert(category_views(kept@) =~= category_views(kept_before).push(c@));
        }
        proof {
            i = i + 1;
        }
    }
    proof {
        assert(all.take(i) =~= all);
        assert(category_views(all) == before.categories);
    }
    cfg.categories = kept;
    assert(cfg@.categories == before.categories.filter(pred));
    assert(cfg@.recent == before.recent);
    assert(cfg@.ignored == before.ignored);
    Ok(())
}

// ---------------------------------------------------------------------------
// Windows path components (`std::path::Path` on Windows)

pub open spec fn is_ascii_alpha(c: char) -> bool {
    ('a' <= c && c <= 'z') || ('A' <= c && c <= 'Z')
}

/// A separator inside a path: only `\` after a verbatim (`\\?\`) prefix,
/// `\` or `/` elsewhere.
pub open spec fn is_sep_in(c: char, verbatim: bool) -> bool {
    c == '\\' || (!verbatim && c == '/')
}

/// Index of the first separator of `s` at or after `i`, or `s.len()`.
pub open spec fn sep_from(s: Seq<char>, i: int, verbatim: bool) -> int
    decreases s.len() - i,
{
    if i >= s.len() {
        s.len() as int
    } else if is_sep_in(s[i], verbatim) {
        i
    } else {
        sep_from(s, i + 1, verbatim)
    }
}

pub proof fn lemma_sep_from(s: Seq<char>, i: int, verbatim: bool)
    requires
        0 <= i <= s.len(),
    ensures
        i <= sep_from(s, i, verbatim) <= s.len(),
        sep_from(s, i, verbatim) < s.len() ==> is_sep_in(s[sep_from(s, i, verbatim)], verbatim),
    decreases s.len() - i,
{
    if i < s.len() && !is_sep_in(s[i], verbatim) {
        lemma_sep_from(s, i + 1, verbatim);
    }
}

/// The path starts with `\\?\`, written with backslashes only.
pub open spec fn is_verbatim(p: Seq<char>) -> bool {
    p.len() >= 4 && p[0] == '\\' && p[1] == '\\' && p[2] == '?' && p[3] == '\\'
}

/// Length of the path's prefix (`Path::components` yields it as one
/// `Prefix`): `\\?\UNC\server\share`, `\\?\name`, `\\.\device`,
/// `\\server\share` or a drive such as `C:`; 0 when there is none. The leading
/// separators of the prefix may be written `/` except in a verbatim prefix.
pub open spec fn prefix_len(p: Seq<char>) -> int {
    if p.len() >= 2 && is_sep(p[0]) && is_sep(p[1]) {
        if is_verbatim(p) {
            if p.len() >= 8 && p[4] == 'U' && p[5] == 'N' && p[6] == 'C' && is_sep(p[7]) {
                let s1 = sep_from(p, 8, true);
                if s1 < p.len() && sep_from(p, s1 + 1, true) > s1 + 1 {
                    sep_from(p, s1 + 1, true)
                } else {
                    s1
                }
            } else {
                sep_from(p, 4, true)
            }
        } else if p.len() >= 4 && p[2] == '.' && is_sep(p[3]) {
            sep_from(p, 4, false)
        } else {
            let s1 = sep_from(p, 2, false);
            if s1 > 2 && s1 < p.len() && sep_from(p, s1 + 1, false) > s1 + 1 {
                sep_from(p, s1 + 1, false)
            } else {
                0
            }
        }
    } else if p.len() >= 2 && p[1] == ':' && is_ascii_alpha(p[0]) {
        2
    } else {
        0
    }
}

/// Start of the last separator-free run of `s`.
pub open spec fn seg_start(s: Seq<char>, verbatim: bool) -> int
    decreases s.len(),
{
    if s.len() == 0 {
        0
    } else if is_sep_in(s.last(), verbatim) {
        s.len() as int
    } else {
        seg_start(s.drop_last(), verbatim)
    }
}

pub proof fn lemma_seg_start(s: Seq<char>, verbatim: bool)
    ensures
        0 <= seg_start(s, verbatim) <= s.len(),
        s.len() > 0 && !is_sep_in(s.last(), verbatim) ==> seg_start(s, verbatim) < s.len(),
    decreases s.len(),
{
    if s.len() > 0 {
        lemma_seg_start(s.drop_last(), verbatim);
    }
}

proof fn lemma_seg_start_at(s: Seq<char>, k: int, verbatim: bool)
    requires
        0 <= k <= s.len(),
        k == 0 || is_sep_in(s[k - 1], verbatim),
        forall|j: int| k <= j < s.len() ==> !is_sep_in(#[trigger] s[j], verbatim),
    ensures
        seg_start(s, verbatim) == k,
    decreases s.len(),
{
    if s.len() > k {
        lemma_seg_start_at(s.drop_last(), k, verbatim);
    }
}

/// The last component of `s`: trailing separators are skipped, and so are
/// `.` components outside verbatim paths.
pub open spec fn last_component(s: Seq<char>, verbatim: bool) -> Option<Seq<char>>
    decreases s.len(),
{
    if s.len() == 0 {
        None
    } else if is_sep_in(s.last(), verbatim) {
        last_component(s.drop_last(), verbatim)
    } else {
        let k = seg_start(s, verbatim);
        proof {
            lemma_seg_start(s, verbatim);
        }
        if !verbatim && s.subrange(k, s.len() as int) == seq!['.'] {
            last_component(s.subrange(0, k), verbatim)
        } else {
            Some(s.subrange(k, s.len() as int))
        }
    }
}

/// `Path::file_name` on Windows: the final component after the prefix, `None`
/// when it is `..` (or `.` in a verbatim path) or when there is none.
pub open spec fn file_name_spec(p: Seq<char>) -> Option<Seq<char>> {
    match last_component(p.skip(prefix_len(p)), is_verbatim(p)) {
        Some(c) => if c == seq!['.', '.'] || c == seq!['.'] {
            None
        } else {
            Some(c)
        },
        None => None,
    }
}

/// Index of the last `.` in `n`.
pub open spec fn last_dot(n: Seq<char>) -> Option<int>
    decreases n.len(),
{
    if n.len() == 0 {
        None
    } else if n.last() == '.' {
        Some(n.len() - 1)
    } else {
        last_dot(n.drop_last())
    }
}

/// `last_dot` finds the last dot: the character there is a dot and none
/// follows it; `None` when there is no dot at all.
pub proof fn lemma_last_dot(n: Seq<char>)
    ensures
        last_dot(n) matches Some(i) ==> 0 <= i < n.len() && n[i] == '.' && forall|j: int|
            i < j < n.len() ==> #[trigger] n[j] != '.',
        last_dot(n) is None ==> forall|j: int| 0 <= j < n.len() ==> #[trigger] n[j] != '.',
    decreases n.len(),
{
    if n.len() > 0 && n.last() != '.' {
        let q = n.drop_last();
        lemma_last_dot(q);
        assert(last_dot(n) == last_dot(q));
        match last_dot(q) {
            Some(i) => {
                assert forall|j: int| i < j < n.len() implies #[trigger] n[j] != '.' by {
                    if j < q.len() {
                        assert(n[j] == q[j]);
                    }
                }
            },
            None => {
                assert forall|j: int| 0 <= j < n.len() implies #[trigger] n[j] != '.' by {
                    if j < q.len() {
                        assert(n[j] == q[j]);
                    }
                }
            },
        }
    }
}

/// A file name with an extension is its stem, a dot and the extension, and the
/// extension holds no dot (`Node.js.lnk` is `Node.js` with extension `lnk`).
pub proof fn lemma_stem_and_extension(n: Seq<char>)
    requires
        ext_of(n) is Some,
    ensures
        stem_of(n) + seq!['.'] + ext_of(n)->0 == n,
        !(ext_of(n)->0).contains('.'),
        stem_of(n).len() > 0,
{
    lemma_last_dot(n);
    let i = last_dot(n)->0;
    let e = n.skip(i + 1);
    assert(n.take(i) + seq!['.'] + e =~= n);
    if e.contains('.') {
        let j = choose|j: int| 0 <= j < e.len() && e[j] == '.';
        assert(n[i + 1 + j] == e[j]);
    }
}

/// `Path::file_stem` of a file name.
pub open spec fn stem_of(n: Seq<char>) -> Seq<char> {
    if n == seq!['.', '.'] {
        n
    } else {
        match last_dot(n) {
            Some(i) => if i == 0 {
                n
            } else {
                n.take(i)
            },
            None => n,
        }
    }
}

/// `Path::extension` of a file name.
pub open spec fn ext_of(n: Seq<char>) -> Option<Seq<char>> {
    if n == seq!['.', '.'] {
        None
    } else {
        match last_dot(n) {
            Some(i) => if i == 0 {
                None
            } else {
                Some(n.skip(i + 1))
            },
            None => None,
        }
    }
}

/// `Path::extension`.
pub open spec fn extension_spec(p: Seq<char>) -> Option<Seq<char>> {
    match file_name_spec(p) {
        Some(n) => ext_of(n),
        None => None,
    }
}

/// `Path::file_stem`.
pub open spec fn file_stem_spec(p: Seq<char>) -> Option<Seq<char>> {
    match file_name_spec(p) {
        Some(n) => Some(stem_of(n)),
        None => None,
    }
}

/// Whether `c` separates components (see `is_sep_in`).
fn sep_char(c: char, verbatim: bool) -> (r: bool)
    ensures
        r == is_sep_in(c, verbatim),
{
    c == '\\' || (!verbatim && c == '/')
}

/// Index of the first separator of `v` at or after `i`, or `v.len()`.
fn sep_index(v: &Vec<char>, i: usize, verbatim: bool) -> (r: usize)
    requires
        i <= v.len(),
    ensures
        r == sep_from(v@, i as int, verbatim),
        i <= r <= v.len(),
{
    let mut j: usize = i;
    while j < v.len() && !sep_char(v[j], verbatim)
        invariant
            i <= j <= v.len(),
            sep_from(v@, i as int, verbatim) == sep_from(v@, j as int, verbatim),
        decreases v.len() - j,
    {
        j += 1;
    }
    j
}

/// Length of the prefix of `v`, as `prefix_len` describes it.
fn prefix_len_of(v: &Vec<char>) -> (r: usize)
    ensures
        r == prefix_len(v@),
        r <= v.len(),
{
    let n = v.len();
    if n >= 2 && sep_char(v[0], false) && sep_char(v[1], false) {
        if n >= 4 && v[0] == '\\' && v[1] == '\\' && v[2] == '?' && v[3] == '\\' {
            if n >= 8 && v[4] == 'U' && v[5] == 'N' && v[6] == 'C' && sep_char(v[7], false) {
                let s1 = sep_index(v, 8, true);
                if s1 < n {
                    let s2 = sep_index(v, s1 + 1, true);
                    if s2 > s1 + 1 {
                        return s2;
                    }
                }
                s1
            } else {
                sep_index(v, 4, true)
            }
        } else if n >= 4 && v[2] == '.' && sep_char(v[3], false) {
            sep_index(v, 4, false)
        } else {
            let s1 = sep_index(v, 2, false);
            if s1 > 2 && s1 < n {
                let s2 = sep_index(v, s1 + 1, false);
                if s2 > s1 + 1 {
                    return s2;
                }
            }
            0
        }
    } else if n >= 2 && v[1] == ':' && (('a' <= v[0] && v[0] <= 'z') || ('A' <= v[0] && v[0]
        <= 'Z')) {
        2
    } else {
        0
    }
}

/// Range `[a, b)` of the last component of `v[lo..]`.
fn last_component_range(v: &Vec<char>, lo: usize, verbatim: bool) -> (r: Option<(usize, usize)>)
    requires
        lo <= v.len(),
    ensures
        match r {
            Some((a, b)) => lo <= a < b <= v.len() && last_component(
                v@.subrange(lo as int, v.len() as int),
                verbatim,
            ) == Some(v@.subrange(a as int, b as int)),
            None => last_component(v@.subrange(lo as int, v.len() as int), verbatim) is None,
        },
{
    let mut end: usize = v.len();
    loop
        invariant
            lo <= end <= v.len(),
            last_component(v@.subrange(lo as int, v.len() as int), verbatim) == last_component(
                v@.subrange(lo as int, end as int),
                verbatim,
            ),
        decreases end - lo,
    {
        let ghost end0 = end;
        while end > lo && sep_char(v[end - 1], verbatim)
            invariant
                lo <= end <= end0 <= v.len(),
                last_component(v@.subrange(lo as int, v.len() as int), verbatim)
                    == last_component(v@.subrange(lo as int, end as int), verbatim),
            decreases end,
        {
            assert(v@.subrange(lo as int, end as int).drop_last() =~= v@.subrange(
                lo as int,
                end - 1,
            ));
            end -= 1;
        }
        if end == lo {
            assert(v@.subrange(lo as int, end as int).len() == 0);
            return None;
        }
        assert(!is_sep_in(v@[end - 1], verbatim));
        let mut start: usize = end - 1;
        while start > lo && !sep_char(v[start - 1], verbatim)
            invariant
                lo <= start < end <= v.len(),
                forall|j: int| start <= j < end ==> !is_sep_in(#[trigger] v@[j], verbatim),
            decreases start,
        {
            start -= 1;
        }
        let ghost t = v@.subrange(lo as int, end as int);
        proof {
            assert(t.last() == v@[end - 1]);
            lemma_seg_start_at(t, start - lo, verbatim);
            assert(t.subrange(start - lo, t.len() as int) =~= v@.subrange(
                start as int,
                end as int,
            ));
            assert(t.subrange(0, start - lo) =~= v@.subrange(lo as int, start as int));
        }
        if !verbatim && end - start == 1 && v[start] == '.' {
            assert(v@.subrange(start as int, end as int) =~= seq!['.']);
            end = start;
            assert(end < end0);
        } else {
            assert(verbatim || v@.subrange(start as int, end as int) != seq!['.']) by {
                if end - start == 1 {
                    assert(v@.subrange(start as int, end as int)[0] == v@[start as int]);
                }
            }
            return Some((start, end));
        }
    }
}

/// Characters of the final component of a path, if it has one.
pub(crate) fn file_name_of(v: &Vec<char>) -> (r: Option<(usize, usize)>)
    ensures
        match r {
            Some((a, b)) => a < b <= v.len() && file_name_spec(v@) == Some(
                v@.subrange(a as int, b as int),
            ),
            None => file_name_spec(v@) is None,
        },
{
    let lo = prefix_len_of(v);
    let verbatim = v.len() >= 4 && v[0] == '\\' && v[1] == '\\' && v[2] == '?' && v[3] == '\\';
    assert(v@.skip(lo as int) =~= v@.subrange(lo as int, v.len() as int));
    match last_component_range(v, lo, verbatim) {
        Some((a, b)) => {
            if (b - a == 2 && v[a] == '.' && v[a + 1] == '.') || (b - a == 1 && v[a] == '.') {
                assert(v@.subrange(a as int, b as int) =~= seq!['.', '.']
                    || v@.subrange(a as int, b as int) =~= seq!['.']);
                None
            } else {
                assert(v@.subrange(a as int, b as int) != seq!['.', '.']
                    && v@.subrange(a as int, b as int) != seq!['.']) by {
                    let t = v@.subrange(a as int, b as int);
                    if t == seq!['.', '.'] {
                        assert(t.len() == 2);
                        assert(t[0] == v@[a as int]);
                        assert(t[1] == v@[a + 1]);
                    }
                    if t == seq!['.'] {
                        assert(t.len() == 1);
                        assert(t[0] == v@[a as int]);
                    }
                }
                Some((a, b))
            }
        },
        None => None,
    }
}

/// Position of the last `.` in `v[a..b]`, relative to `a`.
fn last_dot_in(v: &Vec<char>, a: usize, b: usize) -> (r: Option<usize>)
    requires
        a <= b <= v.len(),
    ensures
        match r {
            Some(i) => i < b - a && last_dot(v@.subrange(a as int, b as int)) == Some(i as int),
            None => last_dot(v@.subrange(a as int, b as int)) is None,
        },
{
    let mut e: usize = b;
    while e > a
        invariant
            a <= e <= b <= v.len(),
            last_dot(v@.subrange(a as int, b as int)) == last_dot(v@.subrange(a as int, e as int)),
        decreases e,
    {
        let ghost t = v@.subrange(a as int, e as int);
        assert(t.last() == v@[e - 1]);
        if v[e - 1] == '.' {
            proof {
                lemma_last_dot(v@.subrange(a as int, b as int));
            }
            return Some(e - 1 - a);
        }
        assert(t.drop_last() =~= v@.subrange(a as int, e - 1));
        e -= 1;
    }
    None
}

/// Whether `v[a..b]` is `..`.
fn is_dot_dot(v: &Vec<char>, a: usize, b: usize) -> (r: bool)
    requires
        a <= b <= v.len(),
    ensures
        r == (v@.subrange(a as int, b as int) == seq!['.', '.']),
{
    if b - a == 2 && v[a] == '.' && v[a + 1] == '.' {
        assert(v@.subrange(a as int, b as int) =~= seq!['.', '.']);
        true
    } else {
        assert(v@.subrange(a as int, b as int) != seq!['.', '.']) by {
            let t = v@.subrange(a as int, b as int);
            if t == seq!['.', '.'] {
                assert(t.len() == 2);
                assert(t[0] == v@[a as int]);
                assert(t[1] == v@[a + 1]);
            }
        }
        false
    }
}

/// Extensions that mark a program or shortcut.
pub open spec fn is_app_extension(e: Seq<char>) -> bool {
    let l = ascii_lower_seq(e);
    ||| l == seq!['e', 'x', 'e']
    ||| l == seq!['l', 'n', 'k']
    ||| l == seq!['b', 'a', 't']
    ||| l == seq!['c', 'm', 'd']
    ||| l == seq!['m', 's', 'i']
    ||| l == seq!['u', 'r', 'l']
}

/// The kind of the item at `path`, given whether it is a directory.
pub open spec fn kind_spec(path: Seq<char>, is_dir: bool) -> ItemKind {
    if is_dir {
        ItemKind::Folder
    } else {
        match extension_spec(path) {
            Some(e) => if is_app_extension(e) {
                ItemKind::App
            } else {
                ItemKind::File
            },
            None => ItemKind::File,
        }
    }
}

fn is_app_ext_range(v: &Vec<char>, a: usize, b: usize) -> (r: bool)
    requires
        a <= b <= v.len(),
    ensures
        r == is_app_extension(v@.subrange(a as int, b as int)),
{
    let mut e: Vec<char> = Vec::new();
    let mut i: usize = a;
    while i < b
        invariant
            a <= i <= b <= v.len(),
            e@ == ascii_lower_seq(v@.subrange(a as int, i as int)),
        decreases b - i,
    {
        e.push(ascii_lower_char(v[i]));
        assert(ascii_lower_seq(v@.subrange(a as int, i + 1)) =~= ascii_lower_seq(
            v@.subrange(a as int, i as int),
        ).push(ascii_lower(v@[i as int])));
        i += 1;
    }
    let e1 = vec!['e', 'x', 'e'];
    let e2 = vec!['l', 'n', 'k'];
    let e3 = vec!['b', 'a', 't'];
    let e4 = vec!['c', 'm', 'd'];
    let e5 = vec!['m', 's', 'i'];
    let e6 = vec!['u', 'r', 'l'];
    assert(e1@ =~= seq!['e', 'x', 'e']);
    assert(e2@ =~= seq!['l', 'n', 'k']);
    assert(e3@ =~= seq!['b', 'a', 't']);
    assert(e4@ =~= seq!['c', 'm', 'd']);
    assert(e5@ =~= seq!['m', 's', 'i']);
    assert(e6@ =~= seq!['u', 'r', 'l']);
    chars_equal(&e, &e1) || chars_equal(&e, &e2) || chars_equal(&e, &e3) || chars_equal(&e, &e4)
        || chars_equal(&e, &e5) || chars_equal(&e, &e6)
}

fn chars_equal(a: &Vec<char>, b: &Vec<char>) -> (r: bool)
    ensures
        r == (a@ == b@),
{
    if a.len() != b.len() {
        return false;
    }
    let mut i: usize = 0;
    while i < a.len()
        invariant
            a.len() == b.len(),
            i <= a.len(),
            forall|j: int| 0 <= j < i ==> a@[j] == b@[j],
        decreases a.len() - i,
    {
        if a[i] != b[i] {
            return false;
        }
        i += 1;
    }
    assert(a@ =~= b@);
    true
}

/// The kind of the item at `path`, given whether it is a directory.
pub fn kind_for(path: &str, is_dir: bool) -> (k: ItemKind)
    ensures
        k == kind_spec(path@, is_dir),
{
    if is_dir {
        return ItemKind::Folder;
    }
    let v = chars_of(path);
    match file_name_of(&v) {
        None => ItemKind::File,
        Some((a, b)) => {
            let ghost n = v@.subrange(a as int, b as int);
            if is_dot_dot(&v, a, b) {
                return ItemKind::File;
            }
            match last_dot_in(&v, a, b) {
                None => ItemKind::File,
                Some(i) => {
                    if i == 0 {
                        ItemKind::File
                    } else {
                        assert(n.skip(i + 1) =~= v@.subrange(a + i + 1, b as int));
                        if is_app_ext_range(&v, a + i + 1, b) {
                            ItemKind::App
                        } else {
                            ItemKind::File
                        }
                    }
                },
            }
        },
    }
}

/// `Path::is_dir`: whether a directory exists at `path` right now. The answer
/// depends on the disk, so nothing is claimed of it.
#[verifier::external_body]
pub(crate) fn path_is_dir(path: &str) -> bool {
    std::path::Path::new(path).is_dir()
}

/// The kind of the item at `path`: a folder if the disk says it is a directory,
/// otherwise decided by the extension.
pub fn detect_kind(path: &str) -> (k: ItemKind)
    ensures
        k == kind_spec(path@, true) || k == kind_spec(path@, false),
{
    kind_for(path, path_is_dir(path))
}

/// The name shown for an item: programs lose their extension (`Code.exe` →
/// `Code`), folders and documents keep their full name.
pub open spec fn display_name_spec(path: Seq<char>, is_dir: bool) -> Seq<char> {
    let base = match file_name_spec(path) {
        Some(n) => n,
        None => path,
    };
    if kind_spec(path, is_dir) == ItemKind::App {
        match file_stem_spec(base) {
            Some(s) => s,
            None => base,
        }
    } else {
        base
    }
}

/// The stem of a name given by its characters.
fn stem_range(v: &Vec<char>, a: usize, b: usize) -> (r: String)
    requires
        a <= b <= v.len(),
    ensures
        r@ == stem_of(v@.subrange(a as int, b as int)),
{
    if is_dot_dot(v, a, b) {
        return string_of_range(v, a, b);
    }
    match last_dot_in(v, a, b) {
        None => string_of_range(v, a, b),
        Some(i) => {
            if i == 0 {
                string_of_range(v, a, b)
            } else {
                assert(v@.subrange(a as int, b as int).take(i as int) =~= v@.subrange(
                    a as int,
                    a + i,
                ));
                string_of_range(v, a, a + i)
            }
        },
    }
}

/// The name shown for the item at `path`, given whether it is a directory.
pub fn display_name_for(path: &str, is_dir: bool) -> (r: String)
    ensures
        r@ == display_name_spec(path@, is_dir),
{
    let v = chars_of(path);
    let base: Vec<char> = match file_name_of(&v) {
        Some((a, b)) => {
            let s = string_of_range(&v, a, b);
            chars_of(s.as_str())
        },
        None => chars_of(path),
    };
    if kind_for(path, is_dir) == ItemKind::App {
        match file_name_of(&base) {
            Some((a, b)) => stem_range(&base, a, b),
            None => string_of(&base),
        }
    } else {
        string_of(&base)
    }
}

/// The name shown for the item at `path`; whether it is a directory is asked of the disk.
pub fn display_name(path: &str) -> (r: String)
    ensures
        r@ == display_name_spec(path@, true) || r@ == display_name_spec(path@, false),
{
    display_name_for(path, path_is_dir(path))
}

} // verus!
