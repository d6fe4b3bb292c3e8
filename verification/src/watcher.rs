//! Vault file watching, the decision half. The deployment target is a shared
//! OneDrive/SMB folder, where native filesystem events are flaky; the watcher
//! backends (native or polling) run outside this library and hand their raw
//! events in. Here those events are normalized to a small [`IndexEvent`] enum
//! (filtered to `.md`, hidden paths dropped) and coalesced so each path yields
//! one logical change per batch.
//!
//! No file *contents* are read here, only paths.
use crate::paths::{
    components_of, is_md, is_md_spec, path_components, path_strip_prefix, strip_path_prefix,
    PathPart, PathPartV,
};
use crate::text::copy_string;
use vstd::prelude::*;

verus! {

// ---------------------------------------------------------------- configuration

/// Which watcher backend to use. `Auto` currently means native; users on a
/// OneDrive/SMB vault should select `Poll`.
#[derive(Debug, Clone, Copy, PartialEq, Eq)]
pub enum WatchMode {
    Auto,
    Native,
    Poll,
}

/// Tunables for the watcher, from `.plainmark/settings.json`.
#[derive(Debug, Clone, Copy)]
pub struct WatchConfig {
    pub mode: WatchMode,
    /// How long to wait for a burst to settle before emitting, in milliseconds.
    pub debounce_ms: u64,
    /// Poll interval for the polling backend, in milliseconds.
    pub poll_interval_ms: u64,
    /// In poll mode, hash file contents to detect edits. More reliable than
    /// mtime/size alone, but it reads every watched file each poll, which on
    /// OneDrive Files-On-Demand forces hydration.
    pub poll_compare_contents: bool,
}

impl WatchConfig {
    /// The defaults: automatic backend, 400 ms debounce, 4 s polling, content
    /// comparison on.
    pub fn default_config() -> (r: WatchConfig)
        ensures
            r.mode == WatchMode::Auto,
            r.debounce_ms == 400,
            r.poll_interval_ms == 4000,
            r.poll_compare_contents,
    {
        WatchConfig {
            mode: WatchMode::Auto,
            debounce_ms: 400,
            poll_interval_ms: 4000,
            poll_compare_contents: true,
        }
    }

    /// The configuration for the (optional) settings fields: each one given
    /// replaces its default; the mode defaults to `Auto`.
    pub fn from_settings(
        mode: Option<WatchMode>,
        poll_interval_ms: Option<u64>,
        debounce_ms: Option<u64>,
        poll_compare_contents: Option<bool>,
    ) -> (r: WatchConfig)
        ensures
            r.mode == (match mode {
                Some(m) => m,
                None => WatchMode::Auto,
            }),
            r.poll_interval_ms == (match poll_interval_ms {
                Some(ms) => ms,
                None => 4000,
            }),
            r.debounce_ms == (match debounce_ms {
                Some(ms) => ms,
                None => 400,
            }),
            r.poll_compare_contents == (match poll_compare_contents {
                Some(b) => b,
                None => true,
            }),
    {
        let mut cfg = WatchConfig::default_config();
        if let Some(m) = mode {
            cfg.mode = m;
        }
        if let Some(ms) = poll_interval_ms {
            cfg.poll_interval_ms = ms;
        }
        if let Some(ms) = debounce_ms {
            cfg.debounce_ms = ms;
        }
        if let Some(b) = poll_compare_contents {
            cfg.poll_compare_contents = b;
        }
        cfg
    }
}

// ---------------------------------------------------------------- events

/// A normalized, vault-relevant filesystem change. Only `.md` notes are
/// reported.
#[derive(Debug, Clone, PartialEq, Eq)]
pub enum IndexEvent {
    Created { path: String },
    Modified { path: String },
    Removed { path: String },
    Renamed { from: String, to: String },
}

pub enum IndexEventV {
    Created(Seq<char>),
    Modified(Seq<char>),
    Removed(Seq<char>),
    Renamed(Seq<char>, Seq<char>),
}

impl DeepView for IndexEvent {
    type V = IndexEventV;

    open spec fn deep_view(&self) -> IndexEventV {
        match self {
            IndexEvent::Created { path } => IndexEventV::Created(path@),
            IndexEvent::Modified { path } => IndexEventV::Modified(path@),
            IndexEvent::Removed { path } => IndexEventV::Removed(path@),
            IndexEvent::Renamed { from, to } => IndexEventV::Renamed(from@, to@),
        }
    }
}

impl IndexEvent {
    /// A copy with the same contents.
    pub fn copy(&self) -> (r: IndexEvent)
        ensures
            r.deep_view() == self.deep_view(),
    {
        match self {
            IndexEvent::Created { path } => IndexEvent::Created { path: copy_string(path) },
            IndexEvent::Modified { path } => IndexEvent::Modified { path: copy_string(path) },
            IndexEvent::Removed { path } => IndexEvent::Removed { path: copy_string(path) },
            IndexEvent::Renamed { from, to } => IndexEvent::Renamed {
                from: copy_string(from),
                to: copy_string(to),
            },
        }
    }
}

/// The kind of a raw filesystem event, as the OS watcher classifies it
/// (`notify`'s `EventKind`, down to the detail the normalizer reads).
#[derive(Debug, Clone, Copy, PartialEq, Eq)]
pub enum CreateKind {
    Any,
    File,
    Folder,
    Other,
}

#[derive(Debug, Clone, Copy, PartialEq, Eq)]
pub enum RenameMode {
    Any,
    To,
    From,
    Both,
    Other,
}

#[derive(Debug, Clone, Copy, PartialEq, Eq)]
pub enum ModifyKind {
    Any,
    Data,
    Metadata,
    Name(RenameMode),
    Other,
}

#[derive(Debug, Clone, Copy, PartialEq, Eq)]
pub enum RemoveKind {
    Any,
    File,
    Folder,
    Other,
}

#[derive(Debug, Clone, Copy, PartialEq, Eq)]
pub enum EventKind {
    Any,
    Access,
    Create(CreateKind),
    Modify(ModifyKind),
    Remove(RemoveKind),
    Other,
}

/// One raw filesystem event: its kind and the paths it names (for a
/// correlated rename, `[from, to]`).
#[derive(Debug, Clone)]
pub struct FsEvent {
    pub kind: EventKind,
    pub paths: Vec<String>,
}

// ---------------------------------------------------------------- relevance

/// A component whose text starts with `.` (`.`, `..`, or a dot-name).
pub open spec fn is_hidden_part(c: PathPartV) -> bool {
    match c {
        PathPartV::Cur => true,
        PathPartV::Parent => true,
        PathPartV::Root => false,
        PathPartV::Normal(s) => s.len() > 0 && s[0] == '.',
        PathPartV::Prefix(s) => s.len() > 0 && s[0] == '.',
    }
}

/// Some component starts with `.`.
pub open spec fn has_hidden(cs: Seq<PathPartV>) -> bool {
    exists|i: int| 0 <= i < cs.len() && is_hidden_part(#[trigger] cs[i])
}

/// A `.md` file inside `root`, with no dot-prefixed component below the root.
pub open spec fn is_relevant_spec(p: Seq<char>, root: Seq<char>) -> bool {
    is_md_spec(p) && match path_strip_prefix(p, root) {
        Some(rel) => !has_hidden(path_components(rel)),
        None => false,
    }
}

/// Should this path participate in the index? It must be a `.md` file inside
/// `vault_root`, with no dot-prefixed component **below** the root, covering
/// `.plainmark/`, `.git/`, and the `.note.md.plainmark.tmp` temp files.
///
/// Hidden-ness is judged on the path *relative to the vault*: the vault itself
/// may sit under a dotted directory (e.g. `~/.config/notes`).
pub fn is_relevant(p: &str, vault_root: &str) -> (r: bool)
    ensures
        r == is_relevant_spec(p@, vault_root@),
{
    if !is_md(p) {
        return false;
    }
    match strip_path_prefix(p, vault_root) {
        Some(rel) => {
            let cs = components_of(rel.as_str());
            let ghost cv = cs.deep_view();
            let mut i: usize = 0;
            while i < cs.len()
                invariant
                    i <= cs.len(),
                    cv == cs.deep_view(),
                    is_md_spec(p@),
                    path_strip_prefix(p@, vault_root@) == Some(rel@),
                    cv == path_components(rel@),
                    forall|k: int| 0 <= k < i ==> !is_hidden_part(#[trigger] cv[k]),
                decreases cs.len() - i,
            {
                assert(cv[i as int] == cs[i as int].deep_view());
                if part_is_hidden(&cs[i]) {
                    return false;
                }
                i += 1;
            }
            true
        },
        None => false,
    }
}

fn part_is_hidden(c: &PathPart) -> (r: bool)
    ensures
        r == is_hidden_part(c.deep_view()),
{
    match c {
        PathPart::Cur | PathPart::Parent => true,
        PathPart::Root => false,
        PathPart::Normal(s) | PathPart::Prefix(s) => {
            let v = crate::text::chars_of(s.as_str());
            v.len() > 0 && v[0] == '.'
        },
    }
}

// ---------------------------------------------------------------- normalizing

pub open spec fn event_with(tag: u8, p: Seq<char>) -> IndexEventV {
    if tag == 0 {
        IndexEventV::Created(p)
    } else if tag == 1 {
        IndexEventV::Modified(p)
    } else {
        IndexEventV::Removed(p)
    }
}

/// One event of kind `tag` (0 created, 1 modified, 2 removed) for each
/// relevant path among the first `n`.
pub open spec fn relevant_events(paths: Seq<Seq<char>>, root: Seq<char>, tag: u8, n: int) -> Seq<IndexEventV>
    decreases n,
{
    if n <= 0 || n > paths.len() {
        Seq::empty()
    } else if is_relevant_spec(paths[n - 1], root) {
        relevant_events(paths, root, tag, n - 1).push(event_with(tag, paths[n - 1]))
    } else {
        relevant_events(paths, root, tag, n - 1)
    }
}

/// A correlated rename, when only one side may be a relevant note.
pub open spec fn rename_spec(from: Seq<char>, to: Seq<char>, root: Seq<char>) -> Seq<IndexEventV> {
    match (is_relevant_spec(from, root), is_relevant_spec(to, root)) {
        (true, true) => seq![IndexEventV::Renamed(from, to)],
        (true, false) => seq![IndexEventV::Removed(from)],
        (false, true) => seq![IndexEventV::Created(to)],
        (false, false) => Seq::empty(),
    }
}

/// What one raw event becomes.
pub open spec fn normalize_spec(kind: EventKind, paths: Seq<Seq<char>>, root: Seq<char>) -> Seq<IndexEventV> {
    let n = paths.len() as int;
    match kind {
        EventKind::Create(CreateKind::File) => relevant_events(paths, root, 0, n),
        EventKind::Create(CreateKind::Any) => relevant_events(paths, root, 0, n),
        EventKind::Modify(ModifyKind::Name(RenameMode::Both)) => if paths.len() >= 2 {
            rename_spec(paths[0], paths[1], root)
        } else {
            Seq::empty()
        },
        EventKind::Modify(ModifyKind::Name(RenameMode::From)) => relevant_events(paths, root, 2, n),
        EventKind::Modify(ModifyKind::Name(RenameMode::To)) => relevant_events(paths, root, 0, n),
        EventKind::Modify(_) => relevant_events(paths, root, 1, n),
        EventKind::Remove(RemoveKind::File) => relevant_events(paths, root, 2, n),
        EventKind::Remove(RemoveKind::Any) => relevant_events(paths, root, 2, n),
        _ => Seq::empty(),
    }
}

fn events_for(paths: &Vec<String>, root: &str, tag: u8) -> (r: Vec<IndexEvent>)
    requires
        tag <= 2,
    ensures
        r.deep_view() == relevant_events(paths.deep_view(), root@, tag, paths.len() as int),
{
    let ghost pv = paths.deep_view();
    let mut out: Vec<IndexEvent> = Vec::new();
    let mut i: usize = 0;
    while i < paths.len()
        invariant
            i <= paths.len(),
            tag <= 2,
            pv == paths.deep_view(),
            out.deep_view() == relevant_events(pv, root@, tag, i as int),
        decreases paths.len() - i,
    {
        assert(pv[i as int] == paths[i as int]@);
        if is_relevant(paths[i].as_str(), root) {
            let p = copy_string(&paths[i]);
            let e = if tag == 0 {
                IndexEvent::Created { path: p }
            } else if tag == 1 {
                IndexEvent::Modified { path: p }
            } else {
                IndexEvent::Removed { path: p }
            };
            let ghost before = out.deep_view();
            out.push(e);
            assert(out.deep_view() =~= before.push(e.deep_view()));
        }
        i += 1;
    }
    out
}

/// A correlated rename, accounting for the possibility that only one side is
/// a `.md` note (e.g. `note.md` to `note.txt`, or `draft.txt` to `note.md`).
fn normalize_rename(from: &String, to: &String, vault_root: &str) -> (r: Vec<IndexEvent>)
    ensures
        r.deep_view() == rename_spec(from@, to@, vault_root@),
{
    let a = is_relevant(from.as_str(), vault_root);
    let b = is_relevant(to.as_str(), vault_root);
    let mut out: Vec<IndexEvent> = Vec::new();
    if a && b {
        out.push(IndexEvent::Renamed { from: copy_string(from), to: copy_string(to) });
    } else if a {
        out.push(IndexEvent::Removed { path: copy_string(from) });
    } else if b {
        out.push(IndexEvent::Created { path: copy_string(to) });
    }
    assert(out.deep_view() =~= rename_spec(from@, to@, vault_root@));
    out
}

/// Turn one raw event into zero or more [`IndexEvent`]s, filtering to
/// relevant `.md` paths under `vault_root`.
///
/// Creations become `Created`; a correlated rename `[from, to]` becomes one
/// `Renamed` (or a `Removed`/`Created` when only one side is a note);
/// uncorrelated rename halves become `Removed` (source) and `Created`
/// (destination); other modifications become `Modified`; file removals become
/// `Removed`. Folder events, access events and the like yield nothing.
pub fn normalize_event(event: &FsEvent, vault_root: &str) -> (r: Vec<IndexEvent>)
    ensures
        r.deep_view() == normalize_spec(event.kind, event.paths.deep_view(), vault_root@),
{
    match event.kind {
        EventKind::Create(CreateKind::File) | EventKind::Create(CreateKind::Any) => events_for(
            &event.paths,
            vault_root,
            0,
        ),
        EventKind::Modify(ModifyKind::Name(RenameMode::Both)) => {
            if event.paths.len() >= 2 {
                assert(event.paths.deep_view()[0] == event.paths[0]@);
                assert(event.paths.deep_view()[1] == event.paths[1]@);
                normalize_rename(&event.paths[0], &event.paths[1], vault_root)
            } else {
                let out: Vec<IndexEvent> = Vec::new();
                assert(out.deep_view() =~= Seq::<IndexEventV>::empty());
                out
            }
        },
        EventKind::Modify(ModifyKind::Name(RenameMode::From)) => events_for(&event.paths, vault_root, 2),
        EventKind::Modify(ModifyKind::Name(RenameMode::To)) => events_for(&event.paths, vault_root, 0),
        EventKind::Modify(_) => events_for(&event.paths, vault_root, 1),
        EventKind::Remove(RemoveKind::File) | EventKind::Remove(RemoveKind::Any) => events_for(
            &event.paths,
            vault_root,
            2,
        ),
        _ => {
            let out: Vec<IndexEvent> = Vec::new();
            assert(out.deep_view() =~= Seq::<IndexEventV>::empty());
            out
        },
    }
}


// ---------------------------------------------------------------- coalescing

/// The path a create/modify/remove event is about.
pub open spec fn ev_path(e: IndexEventV) -> Seq<char> {
    match e {
        IndexEventV::Created(p) => p,
        IndexEventV::Modified(p) => p,
        IndexEventV::Removed(p) => p,
        IndexEventV::Renamed(_, to) => to,
    }
}

/// A create/modify/remove event about path `k`.
pub open spec fn about(e: IndexEventV, k: Seq<char>) -> bool {
    !(e is Renamed) && ev_path(e) == k
}

/// The net event for a path, given its net event so far (`prev`) and a newer
/// event `e` about it: a remove wins outright; a modify after a create stays a
/// create; otherwise the newer one (the last write wins).
pub open spec fn merge(prev: Option<IndexEventV>, e: IndexEventV) -> IndexEventV {
    if e is Removed {
        e
    } else if prev matches Some(IndexEventV::Created(_)) && e is Modified {
        IndexEventV::Created(ev_path(e))
    } else {
        e
    }
}

/// Index of the first slot about `k` (the length when there is none).
pub open spec fn slot_of(slots: Seq<IndexEventV>, k: Seq<char>) -> int
    decreases slots.len(),
{
    if slots.len() == 0 {
        0
    } else if slot_of(slots.drop_last(), k) < slots.len() - 1 {
        slot_of(slots.drop_last(), k)
    } else if about(slots.last(), k) {
        slots.len() - 1
    } else {
        slots.len() as int
    }
}

/// After the first `n` events: one slot per path in first-seen order, and the
/// renames in order.
pub open spec fn coalesce_state(evs: Seq<IndexEventV>, n: int) -> (Seq<IndexEventV>, Seq<IndexEventV>)
    decreases n,
{
    if n <= 0 || n > evs.len() {
        (Seq::empty(), Seq::empty())
    } else {
        let (slots, renames) = coalesce_state(evs, n - 1);
        let e = evs[n - 1];
        if e is Renamed {
            (slots, renames.push(e))
        } else {
            let p = slot_of(slots, ev_path(e));
            if p >= slots.len() {
                (slots.push(merge(None, e)), renames)
            } else {
                (slots.update(p, merge(Some(slots[p]), e)), renames)
            }
        }
    }
}

/// What `coalesce` returns: the per-path slots, then the renames.
pub open spec fn coalesce_spec(evs: Seq<IndexEventV>) -> Seq<IndexEventV> {
    let (slots, renames) = coalesce_state(evs, evs.len() as int);
    slots + renames
}

fn is_rename(e: &IndexEvent) -> (r: bool)
    ensures
        r == (e.deep_view() is Renamed),
{
    match e {
        IndexEvent::Renamed { .. } => true,
        _ => false,
    }
}

fn path_of(e: &IndexEvent) -> (r: &String)
    ensures
        r@ == ev_path(e.deep_view()),
{
    match e {
        IndexEvent::Created { path } => path,
        IndexEvent::Modified { path } => path,
        IndexEvent::Removed { path } => path,
        IndexEvent::Renamed { to, .. } => to,
    }
}

fn merge_exec(prev: Option<&IndexEvent>, e: &IndexEvent) -> (r: IndexEvent)
    ensures
        r.deep_view() == merge(
            match prev {
                Some(x) => Some(x.deep_view()),
                None => None,
            },
            e.deep_view(),
        ),
{
    match (prev, e) {
        (_, IndexEvent::Removed { .. }) => e.copy(),
        (Some(IndexEvent::Created { .. }), IndexEvent::Modified { path }) => IndexEvent::Created {
            path: copy_string(path),
        },
        _ => e.copy(),
    }
}

fn find_slot(slots: &Vec<IndexEvent>, k: &String) -> (r: usize)
    ensures
        r == slot_of(slots.deep_view(), k@),
{
    let ghost sv = slots.deep_view();
    let mut i: usize = 0;
    while i < slots.len()
        invariant
            i <= slots.len(),
            sv == slots.deep_view(),
            slot_of(sv.take(i as int), k@) == i,
        decreases slots.len() - i,
    {
        assert(sv.take(i + 1).drop_last() =~= sv.take(i as int));
        assert(sv.take(i + 1).last() == slots[i as int].deep_view());
        if !is_rename(&slots[i]) && crate::text::str_eq(path_of(&slots[i]).as_str(), k.as_str()) {
            proof {
                lemma_slot_of_prefix(sv, k@, i as int);
            }
            return i;
        }
        i += 1;
    }
    assert(sv.take(sv.len() as int) =~= sv);
    i
}

/// `slot_of` over a prefix that already holds the slot.
proof fn lemma_slot_of_prefix(s: Seq<IndexEventV>, k: Seq<char>, i: int)
    requires
        0 <= i < s.len(),
        slot_of(s.take(i), k) == i,
        about(s[i], k),
    ensures
        slot_of(s, k) == i,
    decreases s.len() - i,
{
    if i + 1 < s.len() {
        lemma_slot_of_prefix_extend(s, k, i, i + 1);
        assert(s.take(s.len() as int) =~= s);
        lemma_slot_of_prefix_extend(s, k, i, s.len() as int);
    } else {
        assert(s.take(i + 1) =~= s);
        assert(s.drop_last() =~= s.take(i));
    }
}

/// Once a slot is found in a prefix, longer prefixes find it too.
proof fn lemma_slot_of_prefix_extend(s: Seq<IndexEventV>, k: Seq<char>, i: int, n: int)
    requires
        0 <= i < n <= s.len(),
        slot_of(s.take(i), k) == i,
        about(s[i], k),
    ensures
        slot_of(s.take(n), k) == i,
    decreases n - i,
{
    if n == i + 1 {
        assert(s.take(n).drop_last() =~= s.take(i));
    } else {
        lemma_slot_of_prefix_extend(s, k, i, n - 1);
        assert(s.take(n).drop_last() =~= s.take(n - 1));
    }
}

/// Collapse a debounced batch so each path yields one logical change. Editors
/// and sync clients emit several events per save; the indexer only needs the
/// net effect. Order is preserved by first-seen path.
///
/// Rules per path: a later `Removed` wins outright; `Created` before a later
/// `Modified` stays `Created`; otherwise the last write wins. `Renamed` events
/// are kept as-is (they carry two distinct paths), after the others.
pub fn coalesce(events: Vec<IndexEvent>) -> (r: Vec<IndexEvent>)
    ensures
        r.deep_view() == coalesce_spec(events.deep_view()),
{
    let ghost ev = events.deep_view();
    let mut slots: Vec<IndexEvent> = Vec::new();
    let mut renames: Vec<IndexEvent> = Vec::new();
    let mut i: usize = 0;
    while i < events.len()
        invariant
            i <= events.len(),
            ev == events.deep_view(),
            (slots.deep_view(), renames.deep_view()) == coalesce_state(ev, i as int),
        decreases events.len() - i,
    {
        let e = &events[i];
        assert(ev[i as int] == e.deep_view());
        if is_rename(e) {
            let ghost before = renames.deep_view();
            let c = e.copy();
            renames.push(c);
            assert(renames.deep_view() =~= before.push(c.deep_view()));
        } else {
            let p = find_slot(&slots, path_of(e));
            let ghost before = slots.deep_view();
            if p >= slots.len() {
                let m = merge_exec(None, e);
                slots.push(m);
                assert(slots.deep_view() =~= before.push(m.deep_view()));
            } else {
                let m = merge_exec(Some(&slots[p]), e);
                assert(before[p as int] == slots[p as int].deep_view());
                slots.set(p, m);
                assert(slots.deep_view() =~= before.update(p as int, m.deep_view()));
            }
        }
        i += 1;
    }
    let ghost sv = slots.deep_view();
    let ghost rv = renames.deep_view();
    let mut k: usize = 0;
    while k < renames.len()
        invariant
            k <= renames.len(),
            rv == renames.deep_view(),
            slots.deep_view() == sv + rv.take(k as int),
        decreases renames.len() - k,
    {
        let ghost before = slots.deep_view();
        let c = renames[k].copy();
        slots.push(c);
        assert(rv.take(k + 1) =~= rv.take(k as int).push(rv[k as int]));
        assert(slots.deep_view() =~= before.push(c.deep_view()));
        k += 1;
    }
    assert(rv.take(rv.len() as int) =~= rv);
    slots
}


// ---------------------------------------------------------------- laws of coalescing

/// Some create/modify/remove event in `evs` is about `k`.
pub open spec fn mentions(evs: Seq<IndexEventV>, k: Seq<char>) -> bool {
    exists|i: int| 0 <= i < evs.len() && about(#[trigger] evs[i], k)
}

/// The last event about `k` is a removal.
pub open spec fn last_is_removed(evs: Seq<IndexEventV>, k: Seq<char>) -> bool {
    exists|i: int|
        0 <= i < evs.len() && about(#[trigger] evs[i], k) && evs[i] is Removed && forall|j: int|
            i < j < evs.len() ==> !about(#[trigger] evs[j], k)
}

/// Some create about `k` has no removal about `k` after it.
pub open spec fn created_since_removal(evs: Seq<IndexEventV>, k: Seq<char>) -> bool {
    exists|i: int|
        0 <= i < evs.len() && about(#[trigger] evs[i], k) && evs[i] is Created && forall|j: int|
            i < j < evs.len() && about(#[trigger] evs[j], k) ==> !(evs[j] is Removed)
}

/// The net effect of a batch on path `k` (for a path it mentions): removed if
/// its last event is a removal, created if a create came after its last
/// removal (or there was none), and modified otherwise.
pub open spec fn net_effect(evs: Seq<IndexEventV>, k: Seq<char>) -> IndexEventV {
    if last_is_removed(evs, k) {
        IndexEventV::Removed(k)
    } else if created_since_removal(evs, k) {
        IndexEventV::Created(k)
    } else {
        IndexEventV::Modified(k)
    }
}

/// The renames of `evs`, in order.
pub open spec fn renames_of(evs: Seq<IndexEventV>) -> Seq<IndexEventV>
    decreases evs.len(),
{
    if evs.len() == 0 {
        Seq::empty()
    } else if evs.last() is Renamed {
        renames_of(evs.drop_last()).push(evs.last())
    } else {
        renames_of(evs.drop_last())
    }
}

/// Slots hold no renames, and no two are about the same path.
pub open spec fn slots_wf(slots: Seq<IndexEventV>) -> bool {
    &&& forall|i: int| 0 <= i < slots.len() ==> !((#[trigger] slots[i]) is Renamed)
    &&& forall|i: int, j: int|
        0 <= i < j < slots.len() ==> ev_path(#[trigger] slots[i]) != ev_path(#[trigger] slots[j])
}

proof fn lemma_slot_of_bounds(slots: Seq<IndexEventV>, k: Seq<char>)
    ensures
        0 <= slot_of(slots, k) <= slots.len(),
        slot_of(slots, k) < slots.len() ==> about(slots[slot_of(slots, k)], k),
        forall|j: int| 0 <= j < slot_of(slots, k) ==> !about(#[trigger] slots[j], k),
    decreases slots.len(),
{
    if slots.len() > 0 {
        lemma_slot_of_bounds(slots.drop_last(), k);
        assert forall|j: int| 0 <= j < slot_of(slots, k) implies !about(#[trigger] slots[j], k) by {
            if j < slots.len() - 1 {
                assert(slots[j] == slots.drop_last()[j]);
            }
        }
    }
}

/// In well-formed slots, the slot about `k` is the one whose path is `k`.
proof fn lemma_slot_of_wf(slots: Seq<IndexEventV>, k: Seq<char>)
    requires
        slots_wf(slots),
    ensures
        slot_of(slots, k) < slots.len() <==> exists|i: int| 0 <= i < slots.len() && about(#[trigger] slots[i], k),
        forall|i: int| 0 <= i < slots.len() && about(#[trigger] slots[i], k) ==> i == slot_of(slots, k),
{
    lemma_slot_of_bounds(slots, k);
    if slot_of(slots, k) == slots.len() {
        assert forall|i: int| 0 <= i < slots.len() implies !about(#[trigger] slots[i], k) by {}
    }
    assert forall|i: int| 0 <= i < slots.len() && about(#[trigger] slots[i], k) implies i == slot_of(slots, k) by {
        let p = slot_of(slots, k);
        if i != p {
            if i < p {
            } else {
                assert(ev_path(slots[p]) == ev_path(slots[i]));
            }
        }
    }
}

/// A batch whose last event about `k` is a removal has no create about `k`
/// after its last removal.
proof fn lemma_removed_not_created(s: Seq<IndexEventV>, k: Seq<char>)
    requires
        last_is_removed(s, k),
    ensures
        !created_since_removal(s, k),
{
    let i = choose|i: int|
        0 <= i < s.len() && about(#[trigger] s[i], k) && s[i] is Removed && forall|j: int|
            i < j < s.len() ==> !about(#[trigger] s[j], k);
    if created_since_removal(s, k) {
        let c = choose|c: int|
            0 <= c < s.len() && about(#[trigger] s[c], k) && s[c] is Created && forall|j: int|
                c < j < s.len() && about(#[trigger] s[j], k) ==> !(s[j] is Removed);
        if c < i {
            assert(about(s[i], k));
        } else if c > i {
            assert(!about(s[c], k));
        }
    }
}

/// The step of the net effect when one more create/modify/remove `e` about
/// `k` arrives.
proof fn lemma_net_step(s: Seq<IndexEventV>, e: IndexEventV, k: Seq<char>)
    requires
        about(e, k),
    ensures
        net_effect(s.push(e), k) == merge(
            if mentions(s, k) {
                Some(net_effect(s, k))
            } else {
                None
            },
            e,
        ),
{
    let t = s.push(e);
    let n = s.len() as int;
    assert(t[n] == e);
    assert forall|i: int| 0 <= i < n implies #[trigger] t[i] == s[i] by {}
    if e is Removed {
        assert(last_is_removed(t, k));
    } else {
        assert(!last_is_removed(t, k)) by {
            if last_is_removed(t, k) {
                let i = choose|i: int|
                    0 <= i < t.len() && about(#[trigger] t[i], k) && t[i] is Removed && forall|j: int|
                        i < j < t.len() ==> !about(#[trigger] t[j], k);
                if i < n {
                    assert(!about(t[n], k));
                }
            }
        }
        if e is Created {
            assert(created_since_removal(t, k)) by {
                assert(about(t[n], k));
            }
        } else {
            assert(created_since_removal(t, k) == created_since_removal(s, k)) by {
                if created_since_removal(t, k) {
                    let c = choose|c: int|
                        0 <= c < t.len() && about(#[trigger] t[c], k) && t[c] is Created && forall|j: int|
                            c < j < t.len() && about(#[trigger] t[j], k) ==> !(t[j] is Removed);
                    assert(c < n);
                    assert(about(s[c], k));
                    assert forall|j: int| c < j < s.len() && about(#[trigger] s[j], k) implies !(s[j] is Removed) by {
                        assert(about(t[j], k));
                    }
                }
                if created_since_removal(s, k) {
                    let c = choose|c: int|
                        0 <= c < s.len() && about(#[trigger] s[c], k) && s[c] is Created && forall|j: int|
                            c < j < s.len() && about(#[trigger] s[j], k) ==> !(s[j] is Removed);
                    assert(about(t[c], k));
                    assert forall|j: int| c < j < t.len() && about(#[trigger] t[j], k) implies !(t[j] is Removed) by {
                        if j < n {
                            assert(about(s[j], k));
                        }
                    }
                }
            }
            if last_is_removed(s, k) {
                lemma_removed_not_created(s, k);
            }
            if created_since_removal(s, k) {
                let c = choose|c: int|
                    0 <= c < s.len() && about(#[trigger] s[c], k) && s[c] is Created && forall|j: int|
                        c < j < s.len() && about(#[trigger] s[j], k) ==> !(s[j] is Removed);
                assert(mentions(s, k)) by {
                    assert(about(s[c], k));
                }
            }
        }
    }
}

/// Events about other paths change nothing for `k`.
proof fn lemma_net_other(s: Seq<IndexEventV>, e: IndexEventV, k: Seq<char>)
    requires
        !about(e, k),
    ensures
        mentions(s.push(e), k) == mentions(s, k),
        last_is_removed(s.push(e), k) == last_is_removed(s, k),
        created_since_removal(s.push(e), k) == created_since_removal(s, k),
{
    let t = s.push(e);
    let n = s.len() as int;
    assert forall|i: int| 0 <= i < n implies #[trigger] t[i] == s[i] by {}
    if mentions(t, k) {
        let w = choose|i: int| 0 <= i < t.len() && about(#[trigger] t[i], k);
        assert(about(s[w], k));
    }
    if mentions(s, k) {
        let w = choose|i: int| 0 <= i < s.len() && about(#[trigger] s[i], k);
        assert(about(t[w], k));
    }
    if last_is_removed(t, k) {
        let i = choose|i: int|
            0 <= i < t.len() && about(#[trigger] t[i], k) && t[i] is Removed && forall|j: int|
                i < j < t.len() ==> !about(#[trigger] t[j], k);
        assert(about(s[i], k));
        assert forall|j: int| i < j < s.len() implies !about(#[trigger] s[j], k) by {
            assert(t[j] == s[j]);
        }
    }
    if last_is_removed(s, k) {
        let i = choose|i: int|
            0 <= i < s.len() && about(#[trigger] s[i], k) && s[i] is Removed && forall|j: int|
                i < j < s.len() ==> !about(#[trigger] s[j], k);
        assert(about(t[i], k));
        assert forall|j: int| i < j < t.len() implies !about(#[trigger] t[j], k) by {
            if j < n {
                assert(t[j] == s[j]);
            }
        }
    }
    if created_since_removal(t, k) {
        let c = choose|c: int|
            0 <= c < t.len() && about(#[trigger] t[c], k) && t[c] is Created && forall|j: int|
                c < j < t.len() && about(#[trigger] t[j], k) ==> !(t[j] is Removed);
        assert(about(s[c], k));
        assert forall|j: int| c < j < s.len() && about(#[trigger] s[j], k) implies !(s[j] is Removed) by {
            assert(t[j] == s[j]);
        }
    }
    if created_since_removal(s, k) {
        let c = choose|c: int|
            0 <= c < s.len() && about(#[trigger] s[c], k) && s[c] is Created && forall|j: int|
                c < j < s.len() && about(#[trigger] s[j], k) ==> !(s[j] is Removed);
        assert(about(t[c], k));
        assert forall|j: int| c < j < t.len() && about(#[trigger] t[j], k) implies !(t[j] is Removed) by {
            if j < n {
                assert(t[j] == s[j]);
            }
        }
    }
}

/// What every prefix's coalesced state satisfies.
proof fn lemma_coalesce_state(evs: Seq<IndexEventV>, n: int)
    requires
        0 <= n <= evs.len(),
    ensures
        slots_wf(coalesce_state(evs, n).0),
        coalesce_state(evs, n).1 == renames_of(evs.take(n)),
        forall|k: Seq<char>|
            #![trigger mentions(evs.take(n), k)]
            (slot_of(coalesce_state(evs, n).0, k) < coalesce_state(evs, n).0.len()) == mentions(
                evs.take(n),
                k,
            ),
        forall|k: Seq<char>|
            #![trigger mentions(evs.take(n), k)]
            mentions(evs.take(n), k) ==> coalesce_state(evs, n).0[slot_of(coalesce_state(evs, n).0, k)]
                == net_effect(evs.take(n), k),
    decreases n,
{
    if n == 0 {
        assert(evs.take(0) =~= Seq::<IndexEventV>::empty());
        assert forall|k: Seq<char>| #![trigger mentions(evs.take(n), k)]
            (slot_of(coalesce_state(evs, n).0, k) < coalesce_state(evs, n).0.len()) == mentions(evs.take(n), k) by {
        }
    } else {
        lemma_coalesce_state(evs, n - 1);
        let (slots, renames) = coalesce_state(evs, n - 1);
        let e = evs[n - 1];
        let s0 = evs.take(n - 1);
        let s1 = evs.take(n);
        assert(s1 =~= s0.push(e));
        assert(s1.drop_last() =~= s0);
        let (slots1, renames1) = coalesce_state(evs, n);
        if e is Renamed {
            assert forall|k: Seq<char>| #![trigger mentions(evs.take(n), k)]
                (slot_of(slots1, k) < slots1.len()) == mentions(s1, k)
                && (mentions(s1, k) ==> slots1[slot_of(slots1, k)] == net_effect(s1, k)) by {
                assert(mentions(s0, k) == mentions(s0, k));
                lemma_net_other(s0, e, k);
            }
        } else {
            let k0 = ev_path(e);
            let p = slot_of(slots, k0);
            lemma_slot_of_bounds(slots, k0);
            lemma_slot_of_wf(slots, k0);
            assert(mentions(s0, k0) == (p < slots.len()));
            let x = merge(if p < slots.len() { Some(slots[p]) } else { None }, e);
            assert(ev_path(x) == k0 && !(x is Renamed));
            assert(slots_wf(slots1)) by {
                if p >= slots.len() {
                    assert(slots1 == slots.push(x));
                    assert forall|i: int, j: int| 0 <= i < j < slots1.len() implies ev_path(#[trigger] slots1[i])
                        != ev_path(#[trigger] slots1[j]) by {
                        if j == slots.len() {
                            assert(!about(slots[i], k0));
                        } else {
                            assert(slots1[i] == slots[i] && slots1[j] == slots[j]);
                        }
                    }
                } else {
                    assert(slots1 == slots.update(p, x));
                    assert forall|i: int, j: int| 0 <= i < j < slots1.len() implies ev_path(#[trigger] slots1[i])
                        != ev_path(#[trigger] slots1[j]) by {
                        assert(ev_path(slots1[i]) == ev_path(slots[i]));
                        assert(ev_path(slots1[j]) == ev_path(slots[j]));
                    }
                }
            }
            assert forall|k: Seq<char>| #![trigger mentions(evs.take(n), k)]
                (slot_of(slots1, k) < slots1.len()) == mentions(s1, k)
                && (mentions(s1, k) ==> slots1[slot_of(slots1, k)] == net_effect(s1, k)) by {
                lemma_slot_of_wf(slots1, k);
                lemma_slot_of_bounds(slots1, k);
                lemma_slot_of_wf(slots, k);
                lemma_slot_of_bounds(slots, k);
                if k == k0 {
                    assert(about(e, k));
                    assert(mentions(s1, k)) by {
                        assert(about(s1[n - 1], k));
                    }
                    let q = if p < slots.len() { p } else { slots.len() as int };
                    assert(about(slots1[q], k));
                    lemma_net_step(s0, e, k);
                } else {
                    lemma_net_other(s0, e, k);
                    if p >= slots.len() {
                        assert(!about(slots1[slots.len() as int], k));
                        assert forall|i: int| 0 <= i < slots.len() implies #[trigger] slots1[i] == slots[i] by {}
                        if mentions(s0, k) {
                            let q = slot_of(slots, k);
                            assert(about(slots1[q], k));
                        } else {
                            assert forall|i: int| 0 <= i < slots1.len() implies !about(#[trigger] slots1[i], k) by {
                                if i < slots.len() {
                                    assert(slots1[i] == slots[i]);
                                }
                            }
                        }
                    } else {
                        assert(!about(slots1[p], k));
                        if mentions(s0, k) {
                            let q = slot_of(slots, k);
                            assert(q != p);
                            assert(slots1[q] == slots[q]);
                            assert(about(slots1[q], k));
                        } else {
                            assert forall|i: int| 0 <= i < slots1.len() implies !about(#[trigger] slots1[i], k) by {
                                if i != p {
                                    assert(slots1[i] == slots[i]);
                                }
                            }
                        }
                    }
                }
            }
        }
    }
}


proof fn lemma_renames_of(evs: Seq<IndexEventV>)
    ensures
        forall|i: int| 0 <= i < renames_of(evs).len() ==> (#[trigger] renames_of(evs)[i]) is Renamed,
    decreases evs.len(),
{
    if evs.len() > 0 {
        lemma_renames_of(evs.drop_last());
    }
}

/// Coalescing an already-coalesced list replays it: each slot lands in a fresh
/// slot of its own, and the renames follow.
proof fn lemma_replay(out: Seq<IndexEventV>, slots: Seq<IndexEventV>, renames: Seq<IndexEventV>, n: int)
    requires
        out == slots + renames,
        slots_wf(slots),
        forall|i: int| 0 <= i < renames.len() ==> (#[trigger] renames[i]) is Renamed,
        0 <= n <= out.len(),
    ensures
        n <= slots.len() ==> coalesce_state(out, n) == (slots.take(n), Seq::<IndexEventV>::empty()),
        n > slots.len() ==> coalesce_state(out, n) == (slots, renames.take(n - slots.len())),
    decreases n,
{
    if n > 0 {
        lemma_replay(out, slots, renames, n - 1);
        let e = out[n - 1];
        if n <= slots.len() {
            let prev = slots.take(n - 1);
            assert(e == slots[n - 1]);
            lemma_slot_of_bounds(prev, ev_path(e));
            let p = slot_of(prev, ev_path(e));
            if p < prev.len() {
                assert(prev[p] == slots[p]);
                assert(ev_path(slots[p]) == ev_path(slots[n - 1]));
            }
            assert(slots.take(n) =~= prev.push(e));
        } else {
            assert(e == renames[n - 1 - slots.len()]);
            if n - 1 == slots.len() {
                assert(slots.take(n - 1) =~= slots);
            }
            assert(renames.take(n - slots.len()) =~= renames.take(n - 1 - slots.len()).push(e));
        }
    } else {
        assert(slots.take(0) =~= Seq::<IndexEventV>::empty());
    }
}

/// Each path yields one logical change: no two create/modify/remove events of
/// a coalesced batch are about the same path.
pub proof fn law_coalesce_one_per_path(evs: Seq<IndexEventV>)
    ensures
        forall|i: int, j: int|
            0 <= i < coalesce_spec(evs).len() && 0 <= j < coalesce_spec(evs).len() && i != j
                && !(coalesce_spec(evs)[i] is Renamed) && !(coalesce_spec(evs)[j] is Renamed) ==> ev_path(
                #[trigger] coalesce_spec(evs)[i],
            ) != ev_path(#[trigger] coalesce_spec(evs)[j]),
{
    lemma_coalesce_state(evs, evs.len() as int);
    assert(evs.take(evs.len() as int) =~= evs);
    let (slots, renames) = coalesce_state(evs, evs.len() as int);
    lemma_renames_of(evs);
    let out = coalesce_spec(evs);
    assert forall|i: int, j: int|
        0 <= i < out.len() && 0 <= j < out.len() && i != j && !(out[i] is Renamed) && !(out[j] is Renamed)
            implies ev_path(#[trigger] out[i]) != ev_path(#[trigger] out[j]) by {
        if i >= slots.len() {
            assert(out[i] == renames[i - slots.len()]);
        } else if j >= slots.len() {
            assert(out[j] == renames[j - slots.len()]);
        } else if i < j {
            assert(out[i] == slots[i] && out[j] == slots[j]);
        } else {
            assert(out[i] == slots[i] && out[j] == slots[j]);
        }
    }
}

/// The net effect per path: a coalesced batch has an event about a path exactly
/// when the batch mentions it, and that event is `Removed` if the path's last
/// event was a removal, `Created` if a create followed its last removal (a
/// create followed by modifies stays a create), and `Modified` otherwise (the
/// last write wins).
pub proof fn law_coalesce_net_effect(evs: Seq<IndexEventV>, k: Seq<char>)
    ensures
        (exists|i: int| 0 <= i < coalesce_spec(evs).len() && about(#[trigger] coalesce_spec(evs)[i], k))
            == mentions(evs, k),
        forall|i: int|
            0 <= i < coalesce_spec(evs).len() && about(#[trigger] coalesce_spec(evs)[i], k)
                ==> coalesce_spec(evs)[i] == net_effect(evs, k),
{
    lemma_coalesce_state(evs, evs.len() as int);
    assert(evs.take(evs.len() as int) =~= evs);
    let (slots, renames) = coalesce_state(evs, evs.len() as int);
    lemma_renames_of(evs);
    lemma_slot_of_wf(slots, k);
    lemma_slot_of_bounds(slots, k);
    assert(mentions(evs.take(evs.len() as int), k) == mentions(evs, k));
    let out = coalesce_spec(evs);
    assert forall|i: int| 0 <= i < out.len() && about(#[trigger] out[i], k) implies i < slots.len() && out[i] == slots[i] by {
        if i >= slots.len() {
            assert(out[i] == renames[i - slots.len()]);
        }
    }
    if mentions(evs, k) {
        let q = slot_of(slots, k);
        assert(out[q] == slots[q]);
        assert(about(out[q], k));
    }
}

/// Renames are kept as they came, in order, after every other event.
pub proof fn law_coalesce_renames_last(evs: Seq<IndexEventV>)
    ensures
        coalesce_spec(evs).len() >= renames_of(evs).len(),
        coalesce_spec(evs).skip(coalesce_spec(evs).len() - renames_of(evs).len()) == renames_of(evs),
        forall|i: int|
            0 <= i < coalesce_spec(evs).len() - renames_of(evs).len() ==> !((#[trigger] coalesce_spec(evs)[i]) is Renamed),
{
    lemma_coalesce_state(evs, evs.len() as int);
    assert(evs.take(evs.len() as int) =~= evs);
    let (slots, renames) = coalesce_state(evs, evs.len() as int);
    let out = coalesce_spec(evs);
    assert(out.skip(slots.len() as int) =~= renames);
    assert forall|i: int| 0 <= i < slots.len() implies !((#[trigger] out[i]) is Renamed) by {
        assert(out[i] == slots[i]);
    }
}

/// Coalescing is idempotent: a coalesced batch coalesces to itself.
pub proof fn law_coalesce_idempotent(evs: Seq<IndexEventV>)
    ensures
        coalesce_spec(coalesce_spec(evs)) == coalesce_spec(evs),
{
    lemma_coalesce_state(evs, evs.len() as int);
    assert(evs.take(evs.len() as int) =~= evs);
    let (slots, renames) = coalesce_state(evs, evs.len() as int);
    lemma_renames_of(evs);
    let out = coalesce_spec(evs);
    lemma_replay(out, slots, renames, out.len() as int);
    if renames.len() == 0 {
        assert(out =~= slots);
        assert(slots.take(out.len() as int) =~= slots);
    } else {
        assert(renames.take(out.len() - slots.len()) =~= renames);
    }
}


proof fn lemma_first_mention(s: Seq<IndexEventV>, k: Seq<char>)
    ensures
        mentions(s, k) == (slot_of(s, k) < s.len()),
{
    lemma_slot_of_bounds(s, k);
    if mentions(s, k) {
        let w = choose|i: int| 0 <= i < s.len() && about(#[trigger] s[i], k);
        assert(!(slot_of(s, k) == s.len()) || !about(s[w], k));
    }
}

/// The slots of every prefix are ordered by their paths' first mention.
proof fn lemma_coalesce_order(evs: Seq<IndexEventV>, n: int)
    requires
        0 <= n <= evs.len(),
    ensures
        forall|i: int, j: int|
            0 <= i < j < coalesce_state(evs, n).0.len() ==> slot_of(
                evs.take(n),
                ev_path(#[trigger] coalesce_state(evs, n).0[i]),
            ) < slot_of(evs.take(n), ev_path(#[trigger] coalesce_state(evs, n).0[j])),
        forall|i: int|
            0 <= i < coalesce_state(evs, n).0.len() ==> mentions(
                evs.take(n),
                ev_path(#[trigger] coalesce_state(evs, n).0[i]),
            ),
    decreases n,
{
    if n > 0 {
        lemma_coalesce_order(evs, n - 1);
        lemma_coalesce_state(evs, n - 1);
        let (slots, renames) = coalesce_state(evs, n - 1);
        let slots1 = coalesce_state(evs, n).0;
        let e = evs[n - 1];
        let s0 = evs.take(n - 1);
        let s1 = evs.take(n);
        assert(s1 =~= s0.push(e));
        assert(s1.drop_last() =~= s0);
        assert forall|k: Seq<char>| mentions(s0, k) implies #[trigger] slot_of(s1, k) == slot_of(s0, k) && mentions(s1, k) by {
            lemma_first_mention(s0, k);
            let w = choose|i: int| 0 <= i < s0.len() && about(#[trigger] s0[i], k);
            assert(about(s1[w], k));
        }
        if !(e is Renamed) {
            let k0 = ev_path(e);
            let p = slot_of(slots, k0);
            lemma_slot_of_wf(slots, k0);
            lemma_slot_of_bounds(slots, k0);
            assert(about(s1[n - 1], k0));
            assert(mentions(s1, k0));
            if p >= slots.len() {
                assert(!mentions(s0, k0));
                lemma_first_mention(s0, k0);
                lemma_first_mention(s1, k0);
                assert(slot_of(s1, k0) == n - 1);
                assert forall|i: int| 0 <= i < slots.len() implies slot_of(s1, ev_path(#[trigger] slots[i])) < n - 1 by {
                    lemma_first_mention(s0, ev_path(slots[i]));
                }
                assert forall|i: int, j: int| 0 <= i < j < slots1.len() implies slot_of(
                    s1,
                    ev_path(#[trigger] slots1[i]),
                ) < slot_of(s1, ev_path(#[trigger] slots1[j])) by {
                    assert(slots1[i] == slots[i]);
                    if j < slots.len() {
                        assert(slots1[j] == slots[j]);
                    } else {
                        assert(ev_path(slots1[j]) == k0);
                    }
                }
                assert forall|i: int| 0 <= i < slots1.len() implies mentions(s1, ev_path(#[trigger] slots1[i])) by {
                    if i < slots.len() {
                        assert(slots1[i] == slots[i]);
                    }
                }
            } else {
                assert forall|i: int| 0 <= i < slots1.len() implies ev_path(#[trigger] slots1[i]) == ev_path(slots[i]) by {}
                assert forall|i: int, j: int| 0 <= i < j < slots1.len() implies slot_of(
                    s1,
                    ev_path(#[trigger] slots1[i]),
                ) < slot_of(s1, ev_path(#[trigger] slots1[j])) by {
                    assert(ev_path(slots1[i]) == ev_path(slots[i]));
                    assert(ev_path(slots1[j]) == ev_path(slots[j]));
                }
                assert forall|i: int| 0 <= i < slots1.len() implies mentions(s1, ev_path(#[trigger] slots1[i])) by {
                    assert(ev_path(slots1[i]) == ev_path(slots[i]));
                }
            }
        }
    }
}

/// Order is preserved by first-seen path: the per-path events of a coalesced
/// batch come in the order their paths were first mentioned.
pub proof fn law_coalesce_first_seen_order(evs: Seq<IndexEventV>)
    ensures
        forall|i: int, j: int|
            0 <= i < j < coalesce_spec(evs).len() && !(coalesce_spec(evs)[j] is Renamed) ==> slot_of(
                evs,
                ev_path(#[trigger] coalesce_spec(evs)[i]),
            ) < slot_of(evs, ev_path(#[trigger] coalesce_spec(evs)[j])),
{
    lemma_coalesce_state(evs, evs.len() as int);
    lemma_coalesce_order(evs, evs.len() as int);
    lemma_renames_of(evs);
    assert(evs.take(evs.len() as int) =~= evs);
    let (slots, renames) = coalesce_state(evs, evs.len() as int);
    let out = coalesce_spec(evs);
    assert forall|i: int, j: int|
        0 <= i < j < out.len() && !(out[j] is Renamed) implies slot_of(evs, ev_path(#[trigger] out[i]))
            < slot_of(evs, ev_path(#[trigger] out[j])) by {
        if j >= slots.len() {
            assert(out[j] == renames[j - slots.len()]);
        } else {
            assert(out[i] == slots[i] && out[j] == slots[j]);
        }
    }
}


/// Every event of a raw batch, normalized, in order.
pub open spec fn normalize_all(evs: Seq<FsEventV>, root: Seq<char>) -> Seq<IndexEventV>
    decreases evs.len(),
{
    if evs.len() == 0 {
        Seq::empty()
    } else {
        normalize_all(evs.drop_last(), root) + normalize_spec(evs.last().kind, evs.last().paths, root)
    }
}

pub struct FsEventV {
    pub kind: EventKind,
    pub paths: Seq<Seq<char>>,
}

impl DeepView for FsEvent {
    type V = FsEventV;

    open spec fn deep_view(&self) -> FsEventV {
        FsEventV { kind: self.kind, paths: self.paths.deep_view() }
    }
}

/// What a debounced batch of raw events becomes: each normalized, then the
/// whole coalesced. An empty result means there is nothing to report.
pub fn normalize_batch(events: &Vec<FsEvent>, vault_root: &str) -> (r: Vec<IndexEvent>)
    ensures
        r.deep_view() == coalesce_spec(normalize_all(events.deep_view(), vault_root@)),
{
    let ghost ev = events.deep_view();
    let mut all: Vec<IndexEvent> = Vec::new();
    let mut i: usize = 0;
    while i < events.len()
        invariant
            i <= events.len(),
            ev == events.deep_view(),
            all.deep_view() == normalize_all(ev.take(i as int), vault_root@),
        decreases events.len() - i,
    {
        assert(ev[i as int] == events[i as int].deep_view());
        let more = normalize_event(&events[i], vault_root);
        let ghost before = all.deep_view();
        let mut j: usize = 0;
        while j < more.len()
            invariant
                j <= more.len(),
                all.deep_view() == before + more.deep_view().take(j as int),
            decreases more.len() - j,
        {
            let c = more[j].copy();
            let ghost b = all.deep_view();
            all.push(c);
            assert(all.deep_view() =~= b.push(c.deep_view()));
            assert(more.deep_view().take(j + 1) =~= more.deep_view().take(j as int).push(more[j as int].deep_view()));
            j += 1;
        }
        assert(more.deep_view().take(more.len() as int) =~= more.deep_view());
        assert(ev.take(i + 1).drop_last() =~= ev.take(i as int));
        i += 1;
    }
    assert(ev.take(ev.len() as int) =~= ev);
    coalesce(all)
}

} // verus!
