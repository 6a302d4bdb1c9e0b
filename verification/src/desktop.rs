//! Desktop entries as the scan reports them. The scan only reads: it never
//! moves, renames or changes a file.
use vstd::prelude::*;

use crate::config::{
    display_name_for, display_name_spec, file_name_spec, kind_for, kind_spec, norm_path,
    norm_path_spec, path_is_dir, ItemKind,
};
use crate::order::{key_lt, lemma_first_above_unique, lemma_sort_len, name_key_lt, sort_by_key, NameKey};
use crate::text::{chars_eq_ignore_ascii_case, chars_of, eq_ignore_ascii_case, owned, string_of_range};

verus! {

/// A desktop entry found by the scan. `path` keeps its case as found (it is
/// used to open the file).
#[derive(Debug)]
pub struct Scanned {
    pub path: String,
    pub name: String,
    pub kind: ItemKind,
}

pub struct ScannedView {
    pub path: Seq<char>,
    pub name: Seq<char>,
    pub kind: ItemKind,
}

impl View for Scanned {
    type V = ScannedView;

    open spec fn view(&self) -> ScannedView {
        ScannedView { path: self.path@, name: self.name@, kind: self.kind }
    }
}

impl Clone for Scanned {
    fn clone(&self) -> (r: Self)
        ensures
            r == *self,
    {
        Scanned { path: self.path.clone(), name: self.name.clone(), kind: self.kind }
    }
}

pub open spec fn scanned_views(s: Seq<Scanned>) -> Seq<ScannedView> {
    s.map_values(|x: Scanned| x@)
}

pub open spec fn scanned_key() -> spec_fn(ScannedView) -> NameKey {
    |x: ScannedView| (x.name, x.path)
}

/// Sorts scanned entries stably by (lower-cased name, path), as the file
/// explorer lists the desktop.
pub fn sort_scanned(v: &mut Vec<Scanned>)
    ensures
        scanned_views(final(v)@) == sort_by_key(scanned_views(old(v)@), scanned_key()),
{
    let ghost orig = scanned_views(v@);
    let n = v.len();
    let mut i: usize = 0;
    while i < n
        invariant
            i <= n,
            v.len() == n,
            orig.len() == n,
            scanned_views(v@).take(i as int) == sort_by_key(orig.take(i as int), scanned_key()),
            scanned_views(v@).skip(i as int) == orig.skip(i as int),
        decreases n - i,
    {
        let ghost pre = scanned_views(v@);
        let x = v.remove(i);
        let ghost sorted = sort_by_key(orig.take(i as int), scanned_key());
        assert(x@ == orig[i as int]) by {
            assert(pre.skip(i as int)[0] == pre[i as int]);
        }
        let ghost vr = v@;
        assert(scanned_views(vr) =~= pre.remove(i as int));
        let mut j: usize = 0;
        while j < i && !name_key_lt(&x.name, &x.path, &v[j].name, &v[j].path)
            invariant
                v@ == vr,
                j <= i < n,
                v.len() == n - 1,
                scanned_views(v@).take(i as int) == sorted,
                forall|t: int| 0 <= t < j ==> !key_lt(scanned_key()(x@), scanned_key()(#[trigger] sorted[t])),
            decreases i - j,
        {
            assert(scanned_views(v@)[j as int] == sorted[j as int]);
            j += 1;
        }
        proof {
            if j < i {
                assert(scanned_views(v@)[j as int] == sorted[j as int]);
            }
            lemma_sort_len(orig.take(i as int), scanned_key());
            lemma_first_above_unique(sorted, x@, scanned_key(), j as int);
        }
        let ghost mid = scanned_views(v@);
        v.insert(j, x);
        proof {
            let t = orig.take(i as int + 1);
            assert(t.drop_last() =~= orig.take(i as int));
            assert(t.last() == x@);
            assert(scanned_views(v@) =~= mid.insert(j as int, x@));
            assert(scanned_views(v@).take(i as int + 1) =~= sorted.insert(j as int, x@));
            assert forall|t: int| 0 <= t < n - i - 1 implies #[trigger] scanned_views(v@).skip(
                i as int + 1,
            )[t] == orig.skip(i as int + 1)[t] by {
                assert(scanned_views(v@)[i + 1 + t] == mid[i + t]);
                assert(mid[i + t] == pre[i + 1 + t]);
                assert(pre.skip(i as int)[1 + t] == orig.skip(i as int)[1 + t]);
            }
            assert(scanned_views(v@).skip(i as int + 1) =~= orig.skip(i as int + 1));
        }
        i += 1;
    }
    assert(orig.take(n as int) =~= orig);
    assert(scanned_views(v@).take(n as int) =~= scanned_views(v@));
}

/// One directory entry as listed from a desktop folder.
#[derive(Debug)]
pub struct DirEntryInfo {
    /// Full path of the entry.
    pub path: String,
    /// Windows file attributes, when the metadata could be read.
    pub attributes: Option<u32>,
    /// Whether the entry is a directory.
    pub is_dir: bool,
}

pub struct DirEntryView {
    pub path: Seq<char>,
    pub attributes: Option<u32>,
    pub is_dir: bool,
}

impl View for DirEntryInfo {
    type V = DirEntryView;

    open spec fn view(&self) -> DirEntryView {
        DirEntryView { path: self.path@, attributes: self.attributes, is_dir: self.is_dir }
    }
}

pub open spec fn entry_views(s: Seq<DirEntryInfo>) -> Seq<DirEntryView> {
    s.map_values(|x: DirEntryInfo| x@)
}

/// `FILE_ATTRIBUTE_HIDDEN | FILE_ATTRIBUTE_SYSTEM`
pub const HIDDEN_OR_SYSTEM: u32 = 0x6;

/// "desktop.ini"
pub open spec fn desktop_ini() -> Seq<char> {
    seq!['d', 'e', 's', 'k', 't', 'o', 'p', '.', 'i', 'n', 'i']
}

/// An entry shown on the desktop: it has a file name, is not `desktop.ini`
/// (whatever its case; it is hidden and system anyway, but users clear
/// attributes), and is neither hidden nor a system file (which also drops
/// `Thumbs.db` and Office `~$` lock files).
pub open spec fn shown_on_desktop(e: DirEntryView) -> bool {
    &&& file_name_spec(e.path) is Some
    &&& !eq_ignore_ascii_case(file_name_spec(e.path)->0, desktop_ini())
    &&& !(e.attributes matches Some(a) && a & HIDDEN_OR_SYSTEM != 0)
}

/// The entries kept by the scan, in listing order: shown on the desktop, and
/// the first of any with the same normalized path (the user and the public
/// desktop may hold the same name).
pub open spec fn kept_entries(es: Seq<DirEntryView>) -> Seq<DirEntryView>
    decreases es.len(),
{
    if es.len() == 0 {
        seq![]
    } else {
        let p = kept_entries(es.drop_last());
        let x = es.last();
        if shown_on_desktop(x) && !(exists|j: int| 0 <= j < p.len() && norm_path_spec(#[trigger] p[j].path) == norm_path_spec(x.path)) {
            p.push(x)
        } else {
            p
        }
    }
}

pub open spec fn entry_to_scanned(e: DirEntryView) -> ScannedView {
    ScannedView {
        path: e.path,
        name: display_name_spec(e.path, e.is_dir),
        kind: kind_spec(e.path, e.is_dir),
    }
}

/// What the scan reports for a desktop listing.
pub open spec fn scanned_of(es: Seq<DirEntryView>) -> Seq<ScannedView> {
    sort_by_key(kept_entries(es).map_values(|e: DirEntryView| entry_to_scanned(e)), scanned_key())
}

/// Turns the listing of all desktop folders (in folder order) into desktop entries.
pub fn collect_scanned(entries: Vec<DirEntryInfo>) -> (r: Vec<Scanned>)
    ensures
        scanned_views(r@) == scanned_of(entry_views(entries@)),
{
    let ghost es = entry_views(entries@);
    let ini = chars_of("desktop.ini");
    proof {
        reveal_strlit("desktop.ini");
        assert(ini@ =~= desktop_ini());
    }
    let mut seen: Vec<String> = Vec::new();
    let mut out: Vec<Scanned> = Vec::new();
    let mut i: usize = 0;
    while i < entries.len()
        invariant
            i <= entries.len(),
            es == entry_views(entries@),
            ini@ == desktop_ini(),
            seen@.len() == kept_entries(es.take(i as int)).len(),
            forall|t: int| 0 <= t < seen@.len() ==> (#[trigger] seen@[t])@ == norm_path_spec(kept_entries(es.take(i as int))[t].path),
            scanned_views(out@) == kept_entries(es.take(i as int)).map_values(|e: DirEntryView| entry_to_scanned(e)),
        decreases entries.len() - i,
    {
        let e = &entries[i];
        assert(e@ == es[i as int]);
        let ghost k = kept_entries(es.take(i as int));
        proof {
            assert(es.take(i + 1).drop_last() =~= es.take(i as int));
            assert(es.take(i + 1).last() == es[i as int]);
        }
        let shown = entry_shown(e, &ini);
        if shown {
            let key = norm_path(e.path.as_str());
            let mut dup = false;
            let mut t: usize = 0;
            while t < seen.len()
                invariant
                    t <= seen.len(),
                    seen@.len() == k.len(),
                    forall|u: int| 0 <= u < seen@.len() ==> (#[trigger] seen@[u])@ == norm_path_spec(k[u].path),
                    dup == exists|u: int| 0 <= u < t && norm_path_spec(#[trigger] k[u].path) == key@,
                decreases seen.len() - t,
            {
                let same = seen[t] == key;
                if same {
                    dup = true;
                    assert(norm_path_spec(k[t as int].path) == key@);
                } else {
                    assert(norm_path_spec(k[t as int].path) != key@);
                }
                t += 1;
            }
            if !dup {
                let ghost before = scanned_views(out@);
                let sc = Scanned {
                    name: display_name_for(e.path.as_str(), e.is_dir),
                    kind: kind_for(e.path.as_str(), e.is_dir),
                    path: e.path.clone(),
                };
                assert(sc@ == entry_to_scanned(es[i as int]));
                out.push(sc);
                seen.push(key);
                proof {
                    let k2 = k.push(es[i as int]);
                    assert(kept_entries(es.take(i + 1)) == k2);
                    assert(scanned_views(out@) =~= before.push(entry_to_scanned(es[i as int])));
                    assert(k2.map_values(|e: DirEntryView| entry_to_scanned(e)) =~= k.map_values(
                        |e: DirEntryView| entry_to_scanned(e),
                    ).push(entry_to_scanned(es[i as int])));
                }
            }
        }
        i += 1;
    }
    assert(es.take(i as int) =~= es);
    sort_scanned(&mut out);
    out
}

/// Whether an entry is shown on the desktop.
fn entry_shown(e: &DirEntryInfo, ini: &Vec<char>) -> (r: bool)
    requires
        ini@ == desktop_ini(),
    ensures
        r == shown_on_desktop(e@),
{
    let v = chars_of(e.path.as_str());
    match crate::config::file_name_of(&v) {
        None => false,
        Some((a, b)) => {
            let s = string_of_range(&v, a, b);
            let name = chars_of(s.as_str());
            if chars_eq_ignore_ascii_case(&name, ini) {
                return false;
            }
            match e.attributes {
                Some(at) => at & HIDDEN_OR_SYSTEM == 0,
                None => true,
            }
        },
    }
}

// ---------------------------------------------------------------------------
// Desktop folders

/// `out` with `p` appended unless a folder with the same normalized path is already there.
pub open spec fn push_unique_spec(out: Seq<Seq<char>>, p: Seq<char>) -> Seq<Seq<char>> {
    if exists|j: int| 0 <= j < out.len() && norm_path_spec(#[trigger] out[j]) == norm_path_spec(p) {
        out
    } else {
        out.push(p)
    }
}

pub open spec fn string_seq(s: Seq<String>) -> Seq<Seq<char>> {
    s.map_values(|x: String| x@)
}

/// Folder names in `r` are pairwise different after normalization.
pub open spec fn distinct_folders(r: Seq<Seq<char>>) -> bool {
    forall|a: int, b: int| 0 <= a < b < r.len() ==> norm_path_spec(#[trigger] r[a]) != norm_path_spec(#[trigger] r[b])
}

pub open spec fn opt_seq(s: Seq<Option<String>>) -> Seq<Option<Seq<char>>> {
    s.map_values(|x: Option<String>| match x { Some(v) => Some(v@), None => None })
}

/// A candidate folder as a value of the model: its path (if it was resolved)
/// and whether it exists as a directory.
pub open spec fn cand_views(s: Seq<Option<(String, bool)>>) -> Seq<Option<(Seq<char>, bool)>> {
    s.map_values(|c: Option<(String, bool)>| match c { Some((p, d)) => Some((p@, d)), None => None })
}

/// The candidates `s` with the directory answers `f`, position by position.
pub open spec fn with_flags(s: Seq<Option<Seq<char>>>, f: Seq<bool>) -> Seq<Option<(Seq<char>, bool)>> {
    Seq::new(s.len(), |i: int| match s[i] { Some(p) => Some((p, f[i])), None => None })
}

/// The folders kept from the candidates, in order: those that were resolved
/// and exist, each once (by normalized path).
pub open spec fn kept_folders(cands: Seq<Option<(Seq<char>, bool)>>) -> Seq<Seq<char>>
    decreases cands.len(),
{
    if cands.len() == 0 {
        seq![]
    } else {
        let prev = kept_folders(cands.drop_last());
        match cands.last() {
            Some((p, true)) => push_unique_spec(prev, p),
            _ => prev,
        }
    }
}

/// The desktop folders: the known folders that exist; only when none of them
/// does, the fallback ones.
pub open spec fn roots_spec(known: Seq<Option<(Seq<char>, bool)>>, fallback: Seq<Option<(Seq<char>, bool)>>) -> Seq<Seq<char>> {
    let k = kept_folders(known);
    if k.len() == 0 {
        kept_folders(fallback)
    } else {
        k
    }
}

proof fn lemma_push_unique_distinct(out: Seq<Seq<char>>, p: Seq<char>)
    requires
        distinct_folders(out),
    ensures
        distinct_folders(push_unique_spec(out, p)),
{
    let r = push_unique_spec(out, p);
    if !(exists|j: int| 0 <= j < out.len() && norm_path_spec(#[trigger] out[j]) == norm_path_spec(p)) {
        assert forall|a: int, b: int| 0 <= a < b < r.len() implies norm_path_spec(#[trigger] r[a]) != norm_path_spec(#[trigger] r[b]) by {
            if b == out.len() {
                assert(r[a] == out[a]);
                assert(norm_path_spec(out[a]) != norm_path_spec(p));
            } else {
                assert(r[a] == out[a] && r[b] == out[b]);
            }
        }
    }
}

/// No folder is kept twice.
pub proof fn lemma_kept_distinct(cands: Seq<Option<(Seq<char>, bool)>>)
    ensures
        distinct_folders(kept_folders(cands)),
    decreases cands.len(),
{
    if cands.len() > 0 {
        lemma_kept_distinct(cands.drop_last());
        match cands.last() {
            Some((p, true)) => lemma_push_unique_distinct(kept_folders(cands.drop_last()), p),
            _ => {},
        }
    }
}

/// Appends `p` unless a folder with the same normalized path is already listed.
fn push_unique(out: &mut Vec<String>, p: &String)
    ensures
        string_seq(final(out)@) == push_unique_spec(string_seq(old(out)@), p@),
{
    let key = norm_path(p.as_str());
    let ghost o = string_seq(out@);
    let mut t: usize = 0;
    while t < out.len()
        invariant
            t <= out.len(),
            o == string_seq(out@),
            key@ == norm_path_spec(p@),
            forall|u: int| 0 <= u < t ==> norm_path_spec(#[trigger] o[u]) != key@,
        decreases out.len() - t,
    {
        assert(o[t as int] == out@[t as int]@);
        if norm_path(out[t].as_str()) == key {
            assert(norm_path_spec(o[t as int]) == key@);
            return ;
        }
        t += 1;
    }
    out.push(p.clone());
    assert(string_seq(out@) =~= o.push(p@));
}

fn keep_folders(cands: &Vec<Option<(String, bool)>>) -> (r: Vec<String>)
    ensures
        string_seq(r@) == kept_folders(cand_views(cands@)),
{
    let ghost cs = cand_views(cands@);
    let mut out: Vec<String> = Vec::new();
    let mut i: usize = 0;
    while i < cands.len()
        invariant
            i <= cands.len(),
            cs == cand_views(cands@),
            string_seq(out@) == kept_folders(cs.take(i as int)),
        decreases cands.len() - i,
    {
        proof {
            assert(cs.take(i + 1).drop_last() =~= cs.take(i as int));
            assert(cs.take(i + 1).last() == cs[i as int]);
        }
        match &cands[i] {
            Some((p, d)) => {
                if *d {
                    push_unique(&mut out, p);
                }
            },
            None => {},
        }
        i += 1;
    }
    assert(cs.take(i as int) =~= cs);
    out
}

/// The desktop folders among the candidates (each with whether it exists as
/// a directory): the known folders (the user's and the public desktop, both
/// shown on the desktop) that exist, each once; only when none of them
/// exists, the fallback folders from the environment, which under a
/// redirected desktop can point to the wrong place.
pub fn pick_roots(known: Vec<Option<(String, bool)>>, fallback: Vec<Option<(String, bool)>>) -> (r: Vec<String>)
    ensures
        string_seq(r@) == roots_spec(cand_views(known@), cand_views(fallback@)),
        distinct_folders(string_seq(r@)),
{
    proof {
        lemma_kept_distinct(cand_views(known@));
        lemma_kept_distinct(cand_views(fallback@));
    }
    let out = keep_folders(&known);
    if out.len() == 0 {
        keep_folders(&fallback)
    } else {
        out
    }
}

/// Pairs each candidate with whether it exists as a directory on disk now.
fn ask_disk(cands: Vec<Option<String>>) -> (r: (Vec<Option<(String, bool)>>, Ghost<Seq<bool>>))
    ensures
        r.1@.len() == cands.len(),
        cand_views(r.0@) == with_flags(opt_seq(cands@), r.1@),
{
    let ghost cs = opt_seq(cands@);
    let mut out: Vec<Option<(String, bool)>> = Vec::new();
    let ghost mut flags: Seq<bool> = seq![];
    let mut i: usize = 0;
    while i < cands.len()
        invariant
            i <= cands.len(),
            cs == opt_seq(cands@),
            flags.len() == i,
            out.len() == i,
            forall|t: int| 0 <= t < i ==> #[trigger] cand_views(out@)[t] == match cs[t] {
                Some(p) => Some((p, flags[t])),
                None => None,
            },
        decreases cands.len() - i,
    {
        let ghost before = out@;
        let ghost prev_flags = flags;
        match &cands[i] {
            Some(p) => {
                let d = path_is_dir(p.as_str());
                out.push(Some((p.clone(), d)));
                proof {
                    flags = flags.push(d);
                    assert(cs[i as int] == Some(p@));
                }
            },
            None => {
                out.push(None);
                proof {
                    flags = flags.push(false);
                    assert(cs[i as int] == None::<Seq<char>>);
                }
            },
        }
        proof {
            assert forall|t: int| 0 <= t < i + 1 implies #[trigger] cand_views(out@)[t] == match cs[t] {
                Some(p) => Some((p, flags[t])),
                None => None,
            } by {
                if t < i {
                    assert(out@[t] == before[t]);
                    assert(flags[t] == prev_flags[t]);
                    assert(cand_views(before)[t] == match cs[t] {
                        Some(p) => Some((p, prev_flags[t])),
                        None => None,
                    });
                }
            }
        }
        i += 1;
    }
    assert(cand_views(out@) =~= with_flags(cs, flags));
    (out, Ghost(flags))
}

/// The desktop folders: `pick_roots` with what the disk says of each
/// candidate (`None`: a folder that could not be resolved).
pub fn roots(known: Vec<Option<String>>, fallback: Vec<Option<String>>) -> (r: Vec<String>)
    ensures
        exists|kd: Seq<bool>, fd: Seq<bool>|
            kd.len() == known.len() && fd.len() == fallback.len() && string_seq(r@) == roots_spec(
                with_flags(opt_seq(known@), kd),
                with_flags(opt_seq(fallback@), fd),
            ),
        distinct_folders(string_seq(r@)),
{
    let (k, Ghost(kd)) = ask_disk(known);
    let (f, Ghost(fd)) = ask_disk(fallback);
    pick_roots(k, f)
}

/// "找不到任何可用的桌面目录"
pub open spec fn msg_no_desktop() -> Seq<char> {
    seq!['找', '不', '到', '任', '何', '可', '用', '的', '桌', '面', '目', '录']
}

/// The result of scanning the desktop folders. No folder at all is an error;
/// so is a folder that could not be listed (`listing` is then the error):
/// a failed scan must never look like an empty desktop, or the sync would
/// delete every desktop item.
pub fn scan(folders: usize, listing: Result<Vec<DirEntryInfo>, String>) -> (r: Result<Vec<Scanned>, String>)
    ensures
        folders == 0 ==> (r matches Err(m) && m@ == msg_no_desktop()),
        folders > 0 ==> match listing {
            Err(e) => r == Err::<Vec<Scanned>, String>(e),
            Ok(es) => (r matches Ok(v) && scanned_views(v@) == scanned_of(entry_views(es@))),
        },
{
    if folders == 0 {
        let m = owned("找不到任何可用的桌面目录");
        proof {
            reveal_strlit("找不到任何可用的桌面目录");
            assert(m@ =~= msg_no_desktop());
        }
        return Err(m);
    }
    match listing {
        Err(e) => Err(e),
        Ok(es) => Ok(collect_scanned(es)),
    }
}

} // verus!
