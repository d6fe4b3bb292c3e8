//! Keeping the index in step with the vault on disk: the initial build (with
//! the mtime/size cache) and the watcher's per-event updates. The files are
//! listed, stat'ed and read around these functions; here is what is decided
//! with what was read.
use crate::index::{build_entry, entry_spec, Index, NoteEntry, NoteEntryV};
use crate::paths::{to_rel, to_rel_spec};
use crate::watcher::{IndexEvent, IndexEventV};
use vstd::prelude::*;

verus! {

/// A file as read for indexing: modification time (millis), size, and the
/// LF-normalized content.
pub type NoteRead = (i64, u64, String);

pub open spec fn read_view(r: Option<NoteRead>) -> Option<(i64, u64, Seq<char>)> {
    match r {
        Some((m, s, c)) => Some((m, s, c@)),
        None => None,
    }
}

/// A read small enough to index.
pub open spec fn read_fits(r: Option<(i64, u64, Seq<char>)>) -> bool {
    match r {
        Some((_, _, c)) => c.len() < usize::MAX,
        None => true,
    }
}

/// The index after reparsing the file at `abs`: when it lies in the vault and
/// could be read, its entry is inserted (or replaced).
pub open spec fn reindexed(
    m: Map<Seq<char>, NoteEntryV>,
    root: Seq<char>,
    abs: Seq<char>,
    read: Option<(i64, u64, Seq<char>)>,
) -> Map<Seq<char>, NoteEntryV> {
    match (to_rel_spec(root, abs), read) {
        (Some(rel), Some((mtime, size, c))) => m.insert(rel, entry_spec(rel, mtime, size, c)),
        _ => m,
    }
}

/// The index without the note at `abs`, when it lies in the vault.
pub open spec fn removed(m: Map<Seq<char>, NoteEntryV>, root: Seq<char>, abs: Seq<char>) -> Map<
    Seq<char>,
    NoteEntryV,
> {
    match to_rel_spec(root, abs) {
        Some(rel) => m.remove(rel),
        None => m,
    }
}

/// The index after one watcher event.
pub open spec fn apply_event_spec(
    m: Map<Seq<char>, NoteEntryV>,
    root: Seq<char>,
    e: IndexEventV,
    read: Option<(i64, u64, Seq<char>)>,
) -> Map<Seq<char>, NoteEntryV> {
    match e {
        IndexEventV::Created(p) => reindexed(m, root, p, read),
        IndexEventV::Modified(p) => reindexed(m, root, p, read),
        IndexEventV::Removed(p) => removed(m, root, p),
        IndexEventV::Renamed(from, to) => reindexed(removed(m, root, from), root, to, read),
    }
}

/// The file an event asks to (re)read, if any: the created or modified file,
/// or a rename's destination.
pub fn event_target(event: &IndexEvent) -> (r: Option<&String>)
    ensures
        match event.deep_view() {
            IndexEventV::Created(p) => r matches Some(s) && s@ == p,
            IndexEventV::Modified(p) => r matches Some(s) && s@ == p,
            IndexEventV::Removed(_) => r is None,
            IndexEventV::Renamed(_, to) => r matches Some(s) && s@ == to,
        },
{
    match event {
        IndexEvent::Created { path } => Some(path),
        IndexEvent::Modified { path } => Some(path),
        IndexEvent::Removed { .. } => None,
        IndexEvent::Renamed { to, .. } => Some(to),
    }
}

/// Reparse a single file (by absolute path) and upsert it into the index.
/// `read` is what reading the file gave (`None` if it could not be read).
pub fn reindex_path(index: &mut Index, vault_root: &str, abs: &str, read: Option<NoteRead>)
    requires
        old(index).wf(),
        read_fits(read_view(read)),
    ensures
        final(index).wf(),
        final(index)@ == reindexed(old(index)@, vault_root@, abs@, read_view(read)),
{
    if let Some(rel) = to_rel(vault_root, abs) {
        if let Some((mtime, size, content)) = read {
            let entry = build_entry(rel, mtime, size, content.as_str());
            index.insert(entry);
        }
    }
}

/// Apply one watcher event to the live index, keeping it in step with the
/// filesystem. `read` is what reading [`event_target`] gave. (Rename
/// *link-rewriting* is a separate, deliberate command; this only keeps the
/// graph current.)
pub fn apply_event(index: &mut Index, vault_root: &str, event: &IndexEvent, read: Option<NoteRead>)
    requires
        old(index).wf(),
        read_fits(read_view(read)),
    ensures
        final(index).wf(),
        final(index)@ == apply_event_spec(old(index)@, vault_root@, event.deep_view(), read_view(read)),
{
    match event {
        IndexEvent::Created { path } | IndexEvent::Modified { path } => {
            reindex_path(index, vault_root, path.as_str(), read);
        },
        IndexEvent::Removed { path } => {
            if let Some(rel) = to_rel(vault_root, path.as_str()) {
                index.remove(rel.as_str());
            }
        },
        IndexEvent::Renamed { from, to } => {
            if let Some(rel) = to_rel(vault_root, from.as_str()) {
                index.remove(rel.as_str());
            }
            reindex_path(index, vault_root, to.as_str(), read);
        },
    }
}


// ---------------------------------------------------------------- building

/// A listed file: absolute path, modification time (millis), size, and the
/// content when it was read (it is read only when the cache cannot serve it).
pub type ListedFile = (String, i64, u64, Option<String>);

pub open spec fn listed_view(f: ListedFile) -> (Seq<char>, i64, u64, Option<Seq<char>>) {
    (f.0@, f.1, f.2, f.3.deep_view())
}

/// The first cached entry for `rel`.
pub open spec fn cached_for(cached: Seq<NoteEntryV>, rel: Seq<char>) -> Option<NoteEntryV>
    decreases cached.len(),
{
    if cached.len() == 0 {
        None
    } else if cached[0].rel_path == rel {
        Some(cached[0])
    } else {
        cached_for(cached.drop_first(), rel)
    }
}

/// The cache still describes the file: same modification time and size.
pub open spec fn fresh(c: Option<NoteEntryV>, mtime: i64, size: u64) -> bool {
    match c {
        Some(e) => e.mtime == mtime && e.size == size,
        None => false,
    }
}

/// Must the file at `abs` be read to index it? Only when it lies in the vault
/// and the cache has no fresh entry for it.
pub open spec fn needs_read_spec(root: Seq<char>, abs: Seq<char>, mtime: i64, size: u64, cached: Seq<NoteEntryV>) -> bool {
    match to_rel_spec(root, abs) {
        Some(rel) => !fresh(cached_for(cached, rel), mtime, size),
        None => false,
    }
}

/// The index, the entries to write back to the cache, and the paths seen, after
/// the first `n` listed files.
pub open spec fn build_state(
    root: Seq<char>,
    files: Seq<(Seq<char>, i64, u64, Option<Seq<char>>)>,
    cached: Seq<NoteEntryV>,
    n: int,
) -> (Map<Seq<char>, NoteEntryV>, Seq<NoteEntryV>, Set<Seq<char>>)
    decreases n,
{
    if n <= 0 || n > files.len() {
        (Map::empty(), Seq::empty(), Set::empty())
    } else {
        let (m, ups, seen) = build_state(root, files, cached, n - 1);
        let (abs, mtime, size, content) = files[n - 1];
        match to_rel_spec(root, abs) {
            None => (m, ups, seen),
            Some(rel) => if fresh(cached_for(cached, rel), mtime, size) {
                (m.insert(rel, cached_for(cached, rel).unwrap()), ups, seen.insert(rel))
            } else {
                match content {
                    Some(c) => {
                        let e = entry_spec(rel, mtime, size, c);
                        (m.insert(rel, e), ups.push(e), seen.insert(rel))
                    },
                    None => (m, ups, seen.insert(rel)),
                }
            },
        }
    }
}

/// The cached paths (among the first `n`) that were not seen on disk.
pub open spec fn stale(cached: Seq<NoteEntryV>, seen: Set<Seq<char>>, n: int) -> Seq<Seq<char>>
    decreases n,
{
    if n <= 0 || n > cached.len() {
        Seq::empty()
    } else if seen.contains(cached[n - 1].rel_path) {
        stale(cached, seen, n - 1)
    } else {
        stale(cached, seen, n - 1).push(cached[n - 1].rel_path)
    }
}

/// What a build produced: the index, the entries parsed afresh (to write back
/// to the cache), and the cached paths that no longer exist on disk (to
/// prune from the cache).
pub struct BuiltIndex {
    pub index: Index,
    pub upserts: Vec<NoteEntry>,
    pub prunes: Vec<String>,
}

fn cached_lookup(cached: &Vec<NoteEntry>, rel: &str) -> (r: Option<usize>)
    ensures
        match r {
            Some(i) => i < cached.len() && cached_for(cached.deep_view(), rel@) == Some(
                cached[i as int].deep_view(),
            ),
            None => cached_for(cached.deep_view(), rel@) is None,
        },
{
    let ghost cv = cached.deep_view();
    assert(cv.skip(0) =~= cv);
    let mut i: usize = 0;
    while i < cached.len()
        invariant
            i <= cached.len(),
            cv == cached.deep_view(),
            cached_for(cv.skip(i as int), rel@) == cached_for(cv, rel@),
        decreases cached.len() - i,
    {
        let ghost rest = cv.skip(i as int);
        assert(rest[0] == cached[i as int].deep_view());
        assert(rest.drop_first() =~= cv.skip(i + 1));
        if crate::text::str_eq(cached[i].rel_path.as_str(), rel) {
            return Some(i);
        }
        i += 1;
    }
    None
}

/// Must the file at `abs` (with this modification time and size) be read to
/// index it? Only when it lies in the vault and the cache has no fresh entry
/// for it.
pub fn needs_read(vault_root: &str, abs: &str, mtime: i64, size: u64, cached: &Vec<NoteEntry>) -> (r: bool)
    ensures
        r == needs_read_spec(vault_root@, abs@, mtime, size, cached.deep_view()),
{
    match to_rel(vault_root, abs) {
        Some(rel) => match cached_lookup(cached, rel.as_str()) {
            Some(i) => !(cached[i].mtime == mtime && cached[i].size == size),
            None => true,
        },
        None => false,
    }
}

fn seen_has(seen: &Vec<String>, k: &str) -> (r: bool)
    ensures
        r == exists|i: int| 0 <= i < seen.len() && (#[trigger] seen[i])@ == k@,
{
    let mut i: usize = 0;
    while i < seen.len()
        invariant
            i <= seen.len(),
            forall|j: int| 0 <= j < i ==> (#[trigger] seen[j])@ != k@,
        decreases seen.len() - i,
    {
        if crate::text::str_eq(seen[i].as_str(), k) {
            return true;
        }
        i += 1;
    }
    false
}

/// Build the whole index from the listed `.md` files: reuse cached entries
/// whose `(mtime, size)` still match, parse the files that were read, skip the
/// rest, and report which entries to write back to the cache and which cached
/// paths no longer exist. The cache is an optimization, never required: with
/// no cached entries every read file is parsed.
pub fn build_index(vault_root: &str, files: &Vec<ListedFile>, cached: &Vec<NoteEntry>) -> (r: BuiltIndex)
    requires
        forall|i: int| 0 <= i < files.len() ==> read_fits(
            match (#[trigger] files[i]).3 {
                Some(c) => Some((0i64, 0u64, c@)),
                None => None,
            },
        ),
    ensures
        r.index.wf(),
        r.index@ == build_state(vault_root@, files@.map_values(|f: ListedFile| listed_view(f)), cached.deep_view(), files.len() as int).0,
        r.upserts.deep_view() == build_state(vault_root@, files@.map_values(|f: ListedFile| listed_view(f)), cached.deep_view(), files.len() as int).1,
        r.prunes.deep_view() == stale(
            cached.deep_view(),
            build_state(vault_root@, files@.map_values(|f: ListedFile| listed_view(f)), cached.deep_view(), files.len() as int).2,
            cached.len() as int,
        ),
{
    let ghost fv = files@.map_values(|f: ListedFile| listed_view(f));
    let ghost cv = cached.deep_view();
    let ghost root = vault_root@;
    let mut index = Index::new();
    let mut upserts: Vec<NoteEntry> = Vec::new();
    let mut seen: Vec<String> = Vec::new();
    let mut i: usize = 0;
    while i < files.len()
        invariant
            i <= files.len(),
            fv == files@.map_values(|f: ListedFile| listed_view(f)),
            cv == cached.deep_view(),
            root == vault_root@,
            forall|j: int| 0 <= j < files.len() ==> read_fits(
                match (#[trigger] files[j]).3 {
                    Some(c) => Some((0i64, 0u64, c@)),
                    None => None,
                },
            ),
            index.wf(),
            index@ == build_state(root, fv, cv, i as int).0,
            upserts.deep_view() == build_state(root, fv, cv, i as int).1,
            forall|k: Seq<char>| #[trigger] build_state(root, fv, cv, i as int).2.contains(k) <==> exists|j: int|
                0 <= j < seen.len() && (#[trigger] seen[j])@ == k,
        decreases files.len() - i,
    {
        let f = &files[i];
        assert(fv[i as int] == listed_view(*f));
        let ghost st = build_state(root, fv, cv, i as int);
        match to_rel(vault_root, f.0.as_str()) {
            None => {},
            Some(rel) => {
                let ghost relv = rel@;
                let hit = cached_lookup(cached, rel.as_str());
                let is_fresh = match hit {
                    Some(c) => cached[c].mtime == f.1 && cached[c].size == f.2,
                    None => false,
                };
                let ghost seen0 = seen@;
                assert(forall|k: Seq<char>| #[trigger] st.2.contains(k) <==> exists|j: int|
                    0 <= j < seen0.len() && (#[trigger] seen0[j])@ == k);
                seen.push(crate::text::copy_string(&rel));
                assert(seen@ == seen0.push(seen[seen.len() - 1]));
                if is_fresh {
                    let c = hit.unwrap();
                    let e = cached[c].copy();
                    assert(e.rel_path@ == relv) by {
                        lemma_cached_for_key(cv, relv);
                    }
                    index.insert(e);
                } else {
                    match &f.3 {
                        Some(content) => {
                            assert(read_fits(Some((0i64, 0u64, content@))));
                            let e = build_entry(rel, f.1, f.2, content.as_str());
                            let e2 = e.copy();
                            index.insert(e);
                            let ghost before = upserts.deep_view();
                            upserts.push(e2);
                            assert(upserts.deep_view() =~= before.push(e2.deep_view()));
                        },
                        None => {},
                    }
                }
                assert forall|k: Seq<char>| #[trigger] build_state(root, fv, cv, i + 1).2.contains(k) <==> exists|j: int|
                    0 <= j < seen.len() && (#[trigger] seen[j])@ == k by {
                    if k == relv {
                        assert(seen[seen.len() - 1]@ == relv);
                    } else if st.2.contains(k) {
                        let j = choose|j: int| 0 <= j < seen0.len() && (#[trigger] seen0[j])@ == k;
                        assert(seen[j] == seen0[j]);
                    } else {
                        assert forall|j: int| 0 <= j < seen.len() implies (#[trigger] seen[j])@ != k by {
                            if j < seen.len() - 1 {
                                assert(seen[j] == seen0[j]);
                            }
                        }
                    }
                }
            },
        }
        i += 1;
    }
    let ghost seen_set = build_state(root, fv, cv, files.len() as int).2;
    let mut prunes: Vec<String> = Vec::new();
    let mut k: usize = 0;
    while k < cached.len()
        invariant
            k <= cached.len(),
            cv == cached.deep_view(),
            forall|q: Seq<char>| #[trigger] seen_set.contains(q) <==> exists|j: int|
                0 <= j < seen.len() && (#[trigger] seen[j])@ == q,
            prunes.deep_view() == stale(cv, seen_set, k as int),
        decreases cached.len() - k,
    {
        assert(cv[k as int] == cached[k as int].deep_view());
        if !seen_has(&seen, cached[k].rel_path.as_str()) {
            let ghost before = prunes.deep_view();
            let c = crate::text::copy_string(&cached[k].rel_path);
            prunes.push(c);
            assert(prunes.deep_view() =~= before.push(c@));
        }
        k += 1;
    }
    BuiltIndex { index, upserts, prunes }
}

proof fn lemma_cached_for_key(cached: Seq<NoteEntryV>, rel: Seq<char>)
    ensures
        cached_for(cached, rel) matches Some(e) ==> e.rel_path == rel,
    decreases cached.len(),
{
    if cached.len() > 0 && cached[0].rel_path != rel {
        lemma_cached_for_key(cached.drop_first(), rel);
    }
}


/// The cache describes the files truthfully: a fresh cached entry for a
/// listed, read file is the entry its content parses to.
pub open spec fn cache_coherent(
    root: Seq<char>,
    files: Seq<(Seq<char>, i64, u64, Option<Seq<char>>)>,
    cached: Seq<NoteEntryV>,
) -> bool {
    forall|i: int|
        0 <= i < files.len() ==> match (to_rel_spec(root, (#[trigger] files[i]).0), files[i].3) {
            (Some(rel), Some(c)) => fresh(cached_for(cached, rel), files[i].1, files[i].2) ==> cached_for(
                cached,
                rel,
            ) == Some(entry_spec(rel, files[i].1, files[i].2, c)),
            _ => true,
        }
}

/// The cache is an optimization, never required: when every listed file was
/// read and the cache is truthful, building with it gives the same index as
/// building with no cache at all.
pub proof fn law_cache_is_transparent(
    root: Seq<char>,
    files: Seq<(Seq<char>, i64, u64, Option<Seq<char>>)>,
    cached: Seq<NoteEntryV>,
    n: int,
)
    requires
        0 <= n <= files.len(),
        forall|i: int| 0 <= i < files.len() ==> (#[trigger] files[i]).3 is Some,
        cache_coherent(root, files, cached),
    ensures
        build_state(root, files, cached, n).0 == build_state(root, files, Seq::empty(), n).0,
    decreases n,
{
    if n > 0 {
        law_cache_is_transparent(root, files, cached, n - 1);
        let f = files[n - 1];
        assert(f.3 is Some);
        assert(cached_for(Seq::<NoteEntryV>::empty(), f.0) is None);
    }
}


// ---------------------------------------------------------------- the cache's rows

/// A cached note's row: path, title, classification, mtime and size.
pub type NoteRow = (String, String, Option<String>, i64, u64);

/// The values, in order, of the rows that belong to `path`.
pub open spec fn rows_for<V>(rows: Seq<(Seq<char>, V)>, path: Seq<char>) -> Seq<V>
    decreases rows.len(),
{
    if rows.len() == 0 {
        Seq::empty()
    } else if rows.last().0 == path {
        rows_for(rows.drop_last(), path).push(rows.last().1)
    } else {
        rows_for(rows.drop_last(), path)
    }
}

/// The entry a cached note row makes with its heading, link and task rows.
pub open spec fn cached_entry(
    n: (Seq<char>, Seq<char>, Option<Seq<char>>, i64, u64),
    hs: Seq<(Seq<char>, crate::markdown::HeadingV)>,
    ls: Seq<(Seq<char>, crate::index::LinkRefV)>,
    ts: Seq<(Seq<char>, crate::index::TaskV)>,
) -> NoteEntryV {
    NoteEntryV {
        rel_path: n.0,
        title: n.1,
        headings: rows_for(hs, n.0),
        outgoing: rows_for(ls, n.0),
        tasks: rows_for(ts, n.0),
        classification: n.2,
        mtime: n.3,
        size: n.4,
    }
}

pub open spec fn note_row_view(n: NoteRow) -> (Seq<char>, Seq<char>, Option<Seq<char>>, i64, u64) {
    (n.0@, n.1@, n.2.deep_view(), n.3, n.4)
}

fn headings_for(rows: &Vec<(String, crate::index::Heading)>, path: &String) -> (r: Vec<crate::index::Heading>)
    ensures
        r.deep_view() == rows_for(rows.deep_view(), path@),
{
    let ghost rv = rows.deep_view();
    let mut out: Vec<crate::index::Heading> = Vec::new();
    let mut i: usize = 0;
    while i < rows.len()
        invariant
            i <= rows.len(),
            rv == rows.deep_view(),
            out.deep_view() == rows_for(rv.take(i as int), path@),
        decreases rows.len() - i,
    {
        assert(rv.take(i + 1).drop_last() =~= rv.take(i as int));
        assert(rv.take(i + 1).last() == (rows[i as int].0@, rows[i as int].1.deep_view()));
        if crate::text::str_eq(rows[i].0.as_str(), path.as_str()) {
            let c = rows[i].1.copy();
            let ghost b = out.deep_view();
            out.push(c);
            assert(out.deep_view() =~= b.push(c.deep_view()));
        }
        i += 1;
    }
    assert(rv.take(rv.len() as int) =~= rv);
    out
}

fn links_for(rows: &Vec<(String, crate::index::LinkRef)>, path: &String) -> (r: Vec<crate::index::LinkRef>)
    ensures
        r.deep_view() == rows_for(rows.deep_view(), path@),
{
    let ghost rv = rows.deep_view();
    let mut out: Vec<crate::index::LinkRef> = Vec::new();
    let mut i: usize = 0;
    while i < rows.len()
        invariant
            i <= rows.len(),
            rv == rows.deep_view(),
            out.deep_view() == rows_for(rv.take(i as int), path@),
        decreases rows.len() - i,
    {
        assert(rv.take(i + 1).drop_last() =~= rv.take(i as int));
        assert(rv.take(i + 1).last() == (rows[i as int].0@, rows[i as int].1.deep_view()));
        if crate::text::str_eq(rows[i].0.as_str(), path.as_str()) {
            let c = rows[i].1.copy();
            let ghost b = out.deep_view();
            out.push(c);
            assert(out.deep_view() =~= b.push(c.deep_view()));
        }
        i += 1;
    }
    assert(rv.take(rv.len() as int) =~= rv);
    out
}

fn tasks_for(rows: &Vec<(String, crate::index::Task)>, path: &String) -> (r: Vec<crate::index::Task>)
    ensures
        r.deep_view() == rows_for(rows.deep_view(), path@),
{
    let ghost rv = rows.deep_view();
    let mut out: Vec<crate::index::Task> = Vec::new();
    let mut i: usize = 0;
    while i < rows.len()
        invariant
            i <= rows.len(),
            rv == rows.deep_view(),
            out.deep_view() == rows_for(rv.take(i as int), path@),
        decreases rows.len() - i,
    {
        assert(rv.take(i + 1).drop_last() =~= rv.take(i as int));
        assert(rv.take(i + 1).last() == (rows[i as int].0@, rows[i as int].1.deep_view()));
        if crate::text::str_eq(rows[i].0.as_str(), path.as_str()) {
            let c = rows[i].1.copy();
            let ghost b = out.deep_view();
            out.push(c);
            assert(out.deep_view() =~= b.push(c.deep_view()));
        }
        i += 1;
    }
    assert(rv.take(rv.len() as int) =~= rv);
    out
}

/// Assemble the cached notes from the cache's rows: each note row, with the
/// heading, link and task rows of its path in their stored order.
pub fn assemble_cached(
    notes: &Vec<NoteRow>,
    headings: &Vec<(String, crate::index::Heading)>,
    links: &Vec<(String, crate::index::LinkRef)>,
    tasks: &Vec<(String, crate::index::Task)>,
) -> (r: Vec<NoteEntry>)
    ensures
        r.len() == notes.len(),
        forall|i: int| 0 <= i < notes.len() ==> (#[trigger] r[i]).deep_view() == cached_entry(
            note_row_view(notes[i]),
            headings.deep_view(),
            links.deep_view(),
            tasks.deep_view(),
        ),
{
    let mut out: Vec<NoteEntry> = Vec::new();
    let mut i: usize = 0;
    while i < notes.len()
        invariant
            i <= notes.len(),
            out.len() == i,
            forall|j: int| 0 <= j < i ==> (#[trigger] out[j]).deep_view() == cached_entry(
                note_row_view(notes[j]),
                headings.deep_view(),
                links.deep_view(),
                tasks.deep_view(),
            ),
        decreases notes.len() - i,
    {
        let n = &notes[i];
        let e = NoteEntry {
            rel_path: crate::text::copy_string(&n.0),
            title: crate::text::copy_string(&n.1),
            headings: headings_for(headings, &n.0),
            outgoing: links_for(links, &n.0),
            tasks: tasks_for(tasks, &n.0),
            classification: crate::text::copy_opt_string(&n.2),
            mtime: n.3,
            size: n.4,
        };
        out.push(e);
        i += 1;
    }
    out
}

} // verus!

verus! {

// ---------------------------------------------------------------- rebuilding

/// Does some entry of `ups` have path `rel`?
pub open spec fn upserted(ups: Seq<NoteEntryV>, rel: Seq<char>) -> bool {
    exists|k: int| 0 <= k < ups.len() && (#[trigger] ups[k]).rel_path == rel
}

/// The cached entries that stay after a build: those neither pruned nor
/// replaced by an upsert, in order.
pub open spec fn kept_entries(cached: Seq<NoteEntryV>, ups: Seq<NoteEntryV>, prunes: Seq<Seq<char>>) -> Seq<
    NoteEntryV,
>
    decreases cached.len(),
{
    if cached.len() == 0 {
        Seq::empty()
    } else {
        let rest = kept_entries(cached.drop_first(), ups, prunes);
        if prunes.contains(cached[0].rel_path) || upserted(ups, cached[0].rel_path) {
            rest
        } else {
            seq![cached[0]] + rest
        }
    }
}

/// The cache after a build's write-back: each upserted entry replaces the
/// rows of its path, and each pruned path is dropped.
pub open spec fn cache_after(cached: Seq<NoteEntryV>, ups: Seq<NoteEntryV>, prunes: Seq<Seq<char>>) -> Seq<NoteEntryV> {
    ups + kept_entries(cached, ups, prunes)
}

/// Each listed file has a vault-relative path of its own.
pub open spec fn distinct_rels(root: Seq<char>, files: Seq<(Seq<char>, i64, u64, Option<Seq<char>>)>) -> bool {
    forall|i: int, j: int|
        0 <= i < j < files.len() && (#[trigger] to_rel_spec(root, files[i].0)) is Some ==> #[trigger] to_rel_spec(
            root,
            files[j].0,
        ) != to_rel_spec(root, files[i].0)
}

/// What a build puts in the index for the file `f` at `rel`, if anything.
pub open spec fn outcome(cached: Seq<NoteEntryV>, rel: Seq<char>, f: (Seq<char>, i64, u64, Option<Seq<char>>)) -> Option<
    NoteEntryV,
> {
    if fresh(cached_for(cached, rel), f.1, f.2) {
        cached_for(cached, rel)
    } else {
        match f.3 {
            Some(c) => Some(entry_spec(rel, f.1, f.2, c)),
            None => None,
        }
    }
}

proof fn lemma_build_map_same(
    root: Seq<char>,
    files: Seq<(Seq<char>, i64, u64, Option<Seq<char>>)>,
    c1: Seq<NoteEntryV>,
    c2: Seq<NoteEntryV>,
    n: int,
)
    requires
        n <= files.len(),
        forall|i: int|
            0 <= i < n ==> match #[trigger] to_rel_spec(root, files[i].0) {
                Some(rel) => outcome(c1, rel, files[i]) == outcome(c2, rel, files[i]),
                None => true,
            },
    ensures
        build_state(root, files, c1, n).0 == build_state(root, files, c2, n).0,
    decreases n,
{
    if n > 0 {
        lemma_build_map_same(root, files, c1, c2, n - 1);
        assert(to_rel_spec(root, files[n - 1].0) == to_rel_spec(root, files[n - 1].0));
    }
}

proof fn lemma_seen_holds(root: Seq<char>, files: Seq<(Seq<char>, i64, u64, Option<Seq<char>>)>, cached: Seq<NoteEntryV>, n: int)
    requires
        n <= files.len(),
    ensures
        forall|i: int|
            0 <= i < n ==> (#[trigger] to_rel_spec(root, files[i].0) matches Some(rel) ==> build_state(
                root,
                files,
                cached,
                n,
            ).2.contains(rel)),
    decreases n,
{
    if n > 0 {
        lemma_seen_holds(root, files, cached, n - 1);
        assert forall|i: int|
            0 <= i < n implies (#[trigger] to_rel_spec(root, files[i].0) matches Some(rel) ==> build_state(
                root,
                files,
                cached,
                n,
            ).2.contains(rel)) by {
            if i < n - 1 {
                assert(to_rel_spec(root, files[i].0) == to_rel_spec(root, files[i].0));
            }
        }
    }
}

/// Every upsert is the parsed entry of a listed file that was read because
/// its cached entry was not fresh; and each such file's entry is upserted.
proof fn lemma_ups_holds(root: Seq<char>, files: Seq<(Seq<char>, i64, u64, Option<Seq<char>>)>, cached: Seq<NoteEntryV>, n: int)
    requires
        n <= files.len(),
    ensures
        forall|k: int|
            0 <= k < build_state(root, files, cached, n).1.len() ==> exists|j: int|
                0 <= j < n && #[trigger] to_rel_spec(root, files[j].0) == Some(
                    (#[trigger] build_state(root, files, cached, n).1[k]).rel_path,
                ) && !fresh(cached_for(cached, build_state(root, files, cached, n).1[k].rel_path), files[j].1, files[j].2)
                    && files[j].3 is Some && build_state(root, files, cached, n).1[k] == entry_spec(
                    build_state(root, files, cached, n).1[k].rel_path,
                    files[j].1,
                    files[j].2,
                    files[j].3->Some_0,
                ),
        forall|i: int|
            0 <= i < n ==> (#[trigger] to_rel_spec(root, files[i].0) matches Some(rel) ==> (!fresh(
                cached_for(cached, rel),
                files[i].1,
                files[i].2,
            ) && files[i].3 is Some ==> build_state(root, files, cached, n).1.contains(
                entry_spec(rel, files[i].1, files[i].2, files[i].3->Some_0),
            ))),
    decreases n,
{
    if n > 0 {
        lemma_ups_holds(root, files, cached, n - 1);
        let prev = build_state(root, files, cached, n - 1).1;
        let cur = build_state(root, files, cached, n).1;
        assert(prev.len() <= cur.len() && forall|k: int| 0 <= k < prev.len() ==> cur[k] == prev[k]);
        assert forall|k: int| 0 <= k < cur.len() implies exists|j: int|
            0 <= j < n && #[trigger] to_rel_spec(root, files[j].0) == Some((#[trigger] cur[k]).rel_path) && !fresh(
                cached_for(cached, cur[k].rel_path),
                files[j].1,
                files[j].2,
            ) && files[j].3 is Some && cur[k] == entry_spec(cur[k].rel_path, files[j].1, files[j].2, files[j].3->Some_0) by {
            if k < prev.len() {
                let j = choose|j: int|
                    0 <= j < n - 1 && #[trigger] to_rel_spec(root, files[j].0) == Some((#[trigger] prev[k]).rel_path)
                        && !fresh(cached_for(cached, prev[k].rel_path), files[j].1, files[j].2) && files[j].3 is Some
                        && prev[k] == entry_spec(prev[k].rel_path, files[j].1, files[j].2, files[j].3->Some_0);
                assert(cur[k] == prev[k]);
            } else {
                assert(to_rel_spec(root, files[n - 1].0) == Some(cur[k].rel_path));
            }
        }
        assert forall|i: int|
            0 <= i < n implies (#[trigger] to_rel_spec(root, files[i].0) matches Some(rel) ==> (!fresh(
                cached_for(cached, rel),
                files[i].1,
                files[i].2,
            ) && files[i].3 is Some ==> cur.contains(entry_spec(rel, files[i].1, files[i].2, files[i].3->Some_0)))) by {
            if i < n - 1 {
                assert(to_rel_spec(root, files[i].0) == to_rel_spec(root, files[i].0));
                if let Some(rel) = to_rel_spec(root, files[i].0) {
                    let e = entry_spec(rel, files[i].1, files[i].2, files[i].3->Some_0);
                    if !fresh(cached_for(cached, rel), files[i].1, files[i].2) && files[i].3 is Some {
                        let w = choose|w: int| 0 <= w < prev.len() && prev[w] == e;
                        assert(cur[w] == e);
                    }
                }
            } else {
                if let Some(rel) = to_rel_spec(root, files[i].0) {
                    if !fresh(cached_for(cached, rel), files[i].1, files[i].2) && files[i].3 is Some {
                        assert(cur[cur.len() - 1] == entry_spec(rel, files[i].1, files[i].2, files[i].3->Some_0));
                    }
                }
            }
        }
    }
}

proof fn lemma_stale_unseen(cached: Seq<NoteEntryV>, seen: Set<Seq<char>>, n: int)
    ensures
        forall|r: Seq<char>| stale(cached, seen, n).contains(r) ==> !seen.contains(r),
    decreases n,
{
    if n > 0 && n <= cached.len() {
        lemma_stale_unseen(cached, seen, n - 1);
        let prev = stale(cached, seen, n - 1);
        assert forall|r: Seq<char>| stale(cached, seen, n).contains(r) implies !seen.contains(r) by {
            let cur = stale(cached, seen, n);
            let k = choose|k: int| 0 <= k < cur.len() && cur[k] == r;
            if k < prev.len() {
                assert(cur[k] == prev[k]);
                assert(prev.contains(r));
            }
        }
    }
}

proof fn lemma_cached_for_concat(a: Seq<NoteEntryV>, b: Seq<NoteEntryV>, r: Seq<char>)
    ensures
        cached_for(a + b, r) == if cached_for(a, r) is Some {
            cached_for(a, r)
        } else {
            cached_for(b, r)
        },
    decreases a.len(),
{
    if a.len() > 0 {
        assert((a + b)[0] == a[0]);
        assert((a + b).drop_first() =~= a.drop_first() + b);
        lemma_cached_for_concat(a.drop_first(), b, r);
    } else {
        assert(a + b =~= b);
    }
}

proof fn lemma_cached_for_kept(cached: Seq<NoteEntryV>, ups: Seq<NoteEntryV>, prunes: Seq<Seq<char>>, r: Seq<char>)
    requires
        !prunes.contains(r),
        !upserted(ups, r),
    ensures
        cached_for(kept_entries(cached, ups, prunes), r) == cached_for(cached, r),
    decreases cached.len(),
{
    if cached.len() > 0 {
        lemma_cached_for_kept(cached.drop_first(), ups, prunes, r);
        let rest = kept_entries(cached.drop_first(), ups, prunes);
        if !(prunes.contains(cached[0].rel_path) || upserted(ups, cached[0].rel_path)) {
            let s = seq![cached[0]] + rest;
            assert(s[0] == cached[0]);
            assert(s.drop_first() =~= rest);
        }
    }
}

proof fn lemma_cached_for_ups(ups: Seq<NoteEntryV>, r: Seq<char>, e: NoteEntryV)
    requires
        forall|k: int| 0 <= k < ups.len() && (#[trigger] ups[k]).rel_path == r ==> ups[k] == e,
    ensures
        upserted(ups, r) ==> cached_for(ups, r) == Some(e),
        !upserted(ups, r) ==> cached_for(ups, r) is None,
    decreases ups.len(),
{
    if ups.len() > 0 {
        let t = ups.drop_first();
        assert forall|k: int| 0 <= k < t.len() && (#[trigger] t[k]).rel_path == r implies t[k] == e by {
            assert(t[k] == ups[k + 1]);
        }
        lemma_cached_for_ups(t, r, e);
        if upserted(ups, r) && ups[0].rel_path != r {
            let k = choose|k: int| 0 <= k < ups.len() && (#[trigger] ups[k]).rel_path == r;
            assert(t[k - 1] == ups[k]);
        }
        if upserted(t, r) {
            let k = choose|k: int| 0 <= k < t.len() && (#[trigger] t[k]).rel_path == r;
            assert(ups[k + 1] == t[k]);
        }
    }
}

/// Building again over the cache that a build left behind gives the same
/// index, whatever that first cache held (empty, fresh, stale or wrong), as
/// long as the files are unchanged and each has a path of its own.
pub proof fn law_rebuild_from_written_cache(
    root: Seq<char>,
    files: Seq<(Seq<char>, i64, u64, Option<Seq<char>>)>,
    cached: Seq<NoteEntryV>,
)
    requires
        distinct_rels(root, files),
    ensures
        ({
            let (m, ups, seen) = build_state(root, files, cached, files.len() as int);
            let cache2 = cache_after(cached, ups, stale(cached, seen, cached.len() as int));
            build_state(root, files, cache2, files.len() as int).0 == m
        }),
{
    let n = files.len() as int;
    let (m, ups, seen) = build_state(root, files, cached, n);
    let prunes = stale(cached, seen, cached.len() as int);
    let cache2 = cache_after(cached, ups, prunes);
    lemma_seen_holds(root, files, cached, n);
    lemma_ups_holds(root, files, cached, n);
    lemma_stale_unseen(cached, seen, cached.len() as int);
    assert forall|i: int|
        0 <= i < n implies match #[trigger] to_rel_spec(root, files[i].0) {
            Some(rel) => outcome(cache2, rel, files[i]) == outcome(cached, rel, files[i]),
            None => true,
        } by {
        if let Some(rel) = to_rel_spec(root, files[i].0) {
            let f = files[i];
            // the upserts for `rel` can only come from this file
            let e = entry_spec(rel, f.1, f.2, f.3->Some_0);
            assert forall|k: int| 0 <= k < ups.len() && (#[trigger] ups[k]).rel_path == rel implies ups[k] == e by {
                let j = choose|j: int|
                    0 <= j < n && #[trigger] to_rel_spec(root, files[j].0) == Some((#[trigger] ups[k]).rel_path)
                        && !fresh(cached_for(cached, ups[k].rel_path), files[j].1, files[j].2) && files[j].3 is Some
                        && ups[k] == entry_spec(ups[k].rel_path, files[j].1, files[j].2, files[j].3->Some_0);
                if j < i {
                    assert(to_rel_spec(root, files[j].0) != to_rel_spec(root, files[i].0));
                } else if j > i {
                    assert(to_rel_spec(root, files[j].0) != to_rel_spec(root, files[i].0));
                }
            }
            lemma_cached_for_ups(ups, rel, e);
            lemma_cached_for_concat(ups, kept_entries(cached, ups, prunes), rel);
            if !fresh(cached_for(cached, rel), f.1, f.2) && f.3 is Some {
                assert(ups.contains(e));
                let w = choose|w: int| 0 <= w < ups.len() && ups[w] == e;
                assert(ups[w].rel_path == rel);
                assert(cached_for(cache2, rel) == Some(e));
            } else {
                assert(seen.contains(rel));
                assert(!prunes.contains(rel));
                if upserted(ups, rel) {
                    let k = choose|k: int| 0 <= k < ups.len() && (#[trigger] ups[k]).rel_path == rel;
                    let j = choose|j: int|
                        0 <= j < n && #[trigger] to_rel_spec(root, files[j].0) == Some((#[trigger] ups[k]).rel_path)
                            && !fresh(cached_for(cached, ups[k].rel_path), files[j].1, files[j].2) && files[j].3 is Some
                            && ups[k] == entry_spec(ups[k].rel_path, files[j].1, files[j].2, files[j].3->Some_0);
                    if j < i {
                        assert(to_rel_spec(root, files[j].0) != to_rel_spec(root, files[i].0));
                    } else if j > i {
                        assert(to_rel_spec(root, files[j].0) != to_rel_spec(root, files[i].0));
                    }
                }
                lemma_cached_for_kept(cached, ups, prunes, rel);
            }
        }
    }
    lemma_build_map_same(root, files, cache2, cached, n);
}

} // verus!
