//! Watching roots: which file-system events call for a rescan.
use crate::text::{eq_ignore_ascii_case, str_eq, views};

use super::scanner::is_excluded;
use vstd::prelude::*;

verus! {

/// A path component under which events are ignored: `.git` or an excluded name.
pub open spec fn ignored_component(c: Seq<char>, exclude: Seq<Seq<char>>) -> bool {
    c == ".git"@ || exclude.contains(c)
}

/// Some component is ignored.
pub open spec fn any_ignored(cs: Seq<Seq<char>>, exclude: Seq<Seq<char>>) -> bool {
    exists|i: int| 0 <= i < cs.len() && #[trigger] ignored_component(cs[i], exclude)
}

/// Whether an event on a path is worth a rescan of its root:
/// - never under `.git` or an excluded name (when the path lies under the
///   root, `components` are its components relative to the root);
/// - always for a path that no longer exists (deleted or renamed away);
/// - never for an existing directory (such as a scan touching its atime);
/// - otherwise only for a file with one of the extensions (ASCII case ignored).
pub open spec fn relevant(
    components: Option<Seq<Seq<char>>>,
    exclude: Seq<Seq<char>>,
    present: bool,
    is_dir: bool,
    extension: Option<Seq<char>>,
    exts: Seq<Seq<char>>,
) -> bool {
    if components matches Some(cs) && any_ignored(cs, exclude) {
        false
    } else if !present {
        true
    } else if is_dir {
        false
    } else {
        match extension {
            Some(e) => exists|i: int| 0 <= i < exts.len() && eq_ignore_ascii_case(#[trigger] exts[i], e),
            None => false,
        }
    }
}

/// Whether an event on a path is worth a rescan (see `relevant`).
pub fn is_relevant(
    components: Option<&Vec<String>>,
    exclude: &Vec<String>,
    present: bool,
    is_dir: bool,
    extension: Option<&str>,
    exts: &Vec<String>,
) -> (r: bool)
    ensures
        r == relevant(
            match components {
                Some(c) => Some(views(c@)),
                None => None,
            },
            views(exclude@),
            present,
            is_dir,
            match extension {
                Some(e) => Some(e@),
                None => None,
            },
            views(exts@),
        ),
{
    proof {
        reveal_strlit(".git");
    }
    let ghost comps = match components {
        Some(c) => Some(views(c@)),
        None => None,
    };
    let ghost extv = match extension {
        Some(e) => Some(e@),
        None => None,
    };
    match components {
        Some(cs) => {
            let mut i: usize = 0;
            while i < cs.len()
                invariant
                    i <= cs@.len(),
                    comps == Some(views(cs@)),
                    comps == (match components {
                        Some(c) => Some(views(c@)),
                        None => None,
                    }),
                    extv == (match extension {
                        Some(e) => Some(e@),
                        None => None,
                    }),
                    ".git"@ =~= seq!['.', 'g', 'i', 't'],
                    forall|k: int| 0 <= k < i ==> !#[trigger] ignored_component(views(cs@)[k], views(exclude@)),
                decreases cs@.len() - i,
            {
                let name = cs[i].as_str();
                assert(views(cs@)[i as int] == name@);
                if str_eq(name, ".git") || is_excluded(exclude, name) {
                    assert(ignored_component(views(cs@)[i as int], views(exclude@)));
                    assert(comps == Some(views(cs@)));
                    assert(!relevant(comps, views(exclude@), present, is_dir, extv, views(exts@)));
                    return false;
                }
                i = i + 1;
            }
        },
        None => {},
    }
    if !present {
        return true;
    }
    if is_dir {
        return false;
    }
    match extension {
        Some(e) => {
            let ec = crate::text::chars_of(e);
            let mut i: usize = 0;
            while i < exts.len()
                invariant
                    i <= exts@.len(),
                    ec@ == e@,
                    extv == Some(e@),
                    extv == (match extension {
                        Some(e) => Some(e@),
                        None => None,
                    }),
                    present,
                    !is_dir,
                    comps == (match components {
                        Some(c) => Some(views(c@)),
                        None => None,
                    }),
                    !(comps matches Some(cs) && any_ignored(cs, views(exclude@))),
                    forall|k: int| 0 <= k < i ==> !eq_ignore_ascii_case(#[trigger] views(exts@)[k], e@),
                decreases exts@.len() - i,
            {
                let x = crate::text::chars_of(exts[i].as_str());
                assert(views(exts@)[i as int] == x@);
                if crate::text::chars_eq_ignore_ascii_case(x.as_slice(), ec.as_slice()) {
                    assert(eq_ignore_ascii_case(views(exts@)[i as int], e@));
                    assert(extv == Some(e@));
                    assert(relevant(comps, views(exclude@), present, is_dir, extv, views(exts@)));
                    return true;
                }
                i = i + 1;
            }
            false
        },
        None => false,
    }
}

} // verus!

verus! {

/// What the file system says of the path of one event: for each root (in
/// the settings' order), the path's components relative to that root when
/// the path lies under it; whether the path exists and is a directory; and
/// its extension.
pub struct EventFacts {
    pub under_roots: Vec<Option<Vec<String>>>,
    pub present: bool,
    pub is_dir: bool,
    pub extension: Option<String>,
}

/// The mathematical value of `EventFacts`.
pub struct EventModel {
    pub under_roots: Seq<Option<Seq<Seq<char>>>>,
    pub present: bool,
    pub is_dir: bool,
    pub extension: Option<Seq<char>>,
}

pub open spec fn opt_views(o: Option<Vec<String>>) -> Option<Seq<Seq<char>>> {
    match o {
        Some(v) => Some(views(v@)),
        None => None,
    }
}

impl View for EventFacts {
    type V = EventModel;

    open spec fn view(&self) -> EventModel {
        EventModel {
            under_roots: self.under_roots@.map_values(|o: Option<Vec<String>>| opt_views(o)),
            present: self.present,
            is_dir: self.is_dir,
            extension: match self.extension {
                Some(e) => Some(e@),
                None => None,
            },
        }
    }
}

/// A root to watch: its name and excluded names.
pub struct WatchedRoot {
    pub name: Seq<char>,
    pub exclude: Seq<Seq<char>>,
}

/// The roots marked for rescan after looking at one event for the first `j`
/// roots, starting from `dirty`: a root is added (once) when the event's path
/// lies under it and the event is relevant to it.
pub open spec fn mark_upto(
    dirty: Seq<Seq<char>>,
    roots: Seq<WatchedRoot>,
    ev: EventModel,
    exts: Seq<Seq<char>>,
    j: int,
) -> Seq<Seq<char>>
    decreases j,
{
    if j <= 0 {
        dirty
    } else {
        let d = mark_upto(dirty, roots, ev, exts, j - 1);
        let r = roots[j - 1];
        if d.contains(r.name) {
            d
        } else {
            match ev.under_roots[j - 1] {
                Some(cs) => if relevant(Some(cs), r.exclude, ev.present, ev.is_dir, ev.extension, exts) {
                    d.push(r.name)
                } else {
                    d
                },
                None => d,
            }
        }
    }
}

/// The roots to rescan after the first `i` events, in the order in which
/// they were first marked.
pub open spec fn marked_after(roots: Seq<WatchedRoot>, evs: Seq<EventModel>, exts: Seq<Seq<char>>, i: int) -> Seq<Seq<char>>
    decreases i,
{
    if i <= 0 {
        Seq::<Seq<char>>::empty()
    } else {
        mark_upto(marked_after(roots, evs, exts, i - 1), roots, evs[i - 1], exts, roots.len() as int)
    }
}

/// The watched form of the configured roots.
pub open spec fn watched_roots(roots: Seq<crate::config::RootSettings>) -> Seq<WatchedRoot> {
    roots.map_values(|r: crate::config::RootSettings| WatchedRoot { name: r.name@, exclude: views(r.exclude@) })
}

/// The views of a batch of events.
pub open spec fn event_views(evs: Seq<EventFacts>) -> Seq<EventModel> {
    evs.map_values(|e: EventFacts| e@)
}

/// Whether `name` is already in `dirty`.
fn already_marked(dirty: &Vec<String>, name: &String) -> (r: bool)
    ensures
        r == views(dirty@).contains(name@),
{
    let mut k: usize = 0;
    while k < dirty.len()
        invariant
            k <= dirty@.len(),
            forall|m: int| 0 <= m < k ==> #[trigger] dirty@[m]@ != name@,
        decreases dirty@.len() - k,
    {
        if dirty[k] == *name {
            assert(views(dirty@)[k as int] == name@);
            return true;
        }
        k = k + 1;
    }
    assert(!views(dirty@).contains(name@)) by {
        if views(dirty@).contains(name@) {
            let m = choose|m: int| 0 <= m < dirty@.len() && views(dirty@)[m] == name@;
            assert(dirty@[m]@ == name@);
        }
    }
    false
}

/// The roots that a batch of debounced events calls to rescan, each once, in
/// the order in which they were first found.
pub fn roots_to_rescan(
    roots: &Vec<crate::config::RootSettings>,
    events: &Vec<EventFacts>,
    exts: &Vec<String>,
) -> (r: Vec<String>)
    requires
        forall|i: int| 0 <= i < events@.len() ==> (#[trigger] events@[i]).under_roots@.len() == roots@.len(),
    ensures
        views(r@) == marked_after(watched_roots(roots@), event_views(events@), views(exts@), events@.len() as int),
{
    let ghost wr = watched_roots(roots@);
    let ghost evs = event_views(events@);
    let mut dirty: Vec<String> = Vec::new();
    let mut i: usize = 0;
    while i < events.len()
        invariant
            i <= events@.len(),
            wr == watched_roots(roots@),
            evs == event_views(events@),
            forall|k: int| 0 <= k < events@.len() ==> (#[trigger] events@[k]).under_roots@.len() == roots@.len(),
            views(dirty@) == marked_after(wr, evs, views(exts@), i as int),
        decreases events@.len() - i,
    {
        let ev = &events[i];
        let ghost start = views(dirty@);
        let mut j: usize = 0;
        while j < roots.len()
            invariant
                j <= roots@.len(),
                i < events@.len(),
                wr == watched_roots(roots@),
                evs == event_views(events@),
                *ev == events@[i as int],
                ev.under_roots@.len() == roots@.len(),
                views(dirty@) == mark_upto(start, wr, evs[i as int], views(exts@), j as int),
            decreases roots@.len() - j,
        {
            let r = &roots[j];
            assert(wr[j as int].name == r.name@);
            assert(wr[j as int].exclude == views(r.exclude@));
            assert(evs[i as int] == ev@);
            assert(ev@.under_roots[j as int] == opt_views(ev.under_roots@[j as int]));
            if !already_marked(&dirty, &r.name) {
                match &ev.under_roots[j] {
                    Some(cs) => {
                        let ext = match &ev.extension {
                            Some(e) => Some(e.as_str()),
                            None => None,
                        };
                        if is_relevant(Some(cs), &r.exclude, ev.present, ev.is_dir, ext, exts) {
                            let ghost before = views(dirty@);
                            dirty.push(r.name.clone());
                            assert(views(dirty@) =~= before.push(r.name@));
                        }
                    },
                    None => {},
                }
            }
            j = j + 1;
        }
        i = i + 1;
    }
    dirty
}

} // verus!

verus! {

proof fn lemma_mark_upto_distinct(
    dirty: Seq<Seq<char>>,
    roots: Seq<WatchedRoot>,
    ev: EventModel,
    exts: Seq<Seq<char>>,
    j: int,
)
    requires
        dirty.no_duplicates(),
    ensures
        mark_upto(dirty, roots, ev, exts, j).no_duplicates(),
    decreases j,
{
    if j > 0 {
        lemma_mark_upto_distinct(dirty, roots, ev, exts, j - 1);
        let d = mark_upto(dirty, roots, ev, exts, j - 1);
        let r = roots[j - 1];
        if !d.contains(r.name) {
            let e = d.push(r.name);
            assert forall|a: int, b: int| 0 <= a < e.len() && 0 <= b < e.len() && a != b implies e[a] != e[b] by {
                if a == d.len() as int {
                    assert(e[b] == d[b]);
                } else if b == d.len() as int {
                    assert(e[a] == d[a]);
                }
            }
        }
    }
}

/// A batch of events asks for each root's rescan at most once.
pub proof fn lemma_rescan_once(roots: Seq<WatchedRoot>, evs: Seq<EventModel>, exts: Seq<Seq<char>>, i: int)
    ensures
        marked_after(roots, evs, exts, i).no_duplicates(),
    decreases i,
{
    if i > 0 {
        lemma_rescan_once(roots, evs, exts, i - 1);
        lemma_mark_upto_distinct(marked_after(roots, evs, exts, i - 1), roots, evs[i - 1], exts, roots.len() as int);
    }
}

/// Whether event `ev` asks for a rescan of root `j`: its path lies under
/// that root and the event is relevant there.
pub open spec fn wants_rescan(roots: Seq<WatchedRoot>, ev: EventModel, exts: Seq<Seq<char>>, j: int) -> bool {
    ev.under_roots[j] matches Some(cs) && relevant(
        Some(cs),
        roots[j].exclude,
        ev.present,
        ev.is_dir,
        ev.extension,
        exts,
    )
}

proof fn lemma_mark_upto_contains(
    dirty: Seq<Seq<char>>,
    roots: Seq<WatchedRoot>,
    ev: EventModel,
    exts: Seq<Seq<char>>,
    j: int,
    x: Seq<char>,
)
    requires
        0 <= j,
    ensures
        mark_upto(dirty, roots, ev, exts, j).contains(x) <==> (dirty.contains(x) || exists|k: int|
            0 <= k < j && roots[k].name == x && #[trigger] wants_rescan(roots, ev, exts, k)),
    decreases j,
{
    if j > 0 {
        lemma_mark_upto_contains(dirty, roots, ev, exts, j - 1, x);
        let d = mark_upto(dirty, roots, ev, exts, j - 1);
        let r = roots[j - 1];
        let res = mark_upto(dirty, roots, ev, exts, j);
        if exists|k: int| 0 <= k < j && roots[k].name == x && #[trigger] wants_rescan(roots, ev, exts, k) {
            let k = choose|k: int| 0 <= k < j && roots[k].name == x && #[trigger] wants_rescan(roots, ev, exts, k);
            if k < j - 1 {
                assert(d.contains(x));
            } else if !d.contains(r.name) {
                assert(res == d.push(r.name));
                assert(res[d.len() as int] == x);
            }
        }
        if !d.contains(r.name) && wants_rescan(roots, ev, exts, j - 1) {
            assert(res == d.push(r.name));
            if res.contains(x) {
                let m = choose|m: int| 0 <= m < res.len() && res[m] == x;
                if m < d.len() {
                    assert(d[m] == x);
                }
            }
            if d.contains(x) {
                let m = choose|m: int| 0 <= m < d.len() && d[m] == x;
                assert(res[m] == x);
            }
        } else {
            assert(res == d);
        }
    }
}

/// A batch of events asks for a rescan of exactly the roots under which
/// some event's path lies and to which it is relevant (by root name).
pub proof fn lemma_rescan_marks(roots: Seq<WatchedRoot>, evs: Seq<EventModel>, exts: Seq<Seq<char>>, i: int, x: Seq<char>)
    requires
        0 <= i,
    ensures
        marked_after(roots, evs, exts, i).contains(x) <==> exists|e: int, k: int|
            0 <= e < i && 0 <= k < roots.len() && roots[k].name == x && #[trigger] wants_rescan(
                roots,
                evs[e],
                exts,
                k,
            ),
    decreases i,
{
    if i > 0 {
        lemma_rescan_marks(roots, evs, exts, i - 1, x);
        let prev = marked_after(roots, evs, exts, i - 1);
        lemma_mark_upto_contains(prev, roots, evs[i - 1], exts, roots.len() as int, x);
        if exists|e: int, k: int|
            0 <= e < i && 0 <= k < roots.len() && roots[k].name == x && #[trigger] wants_rescan(
                roots,
                evs[e],
                exts,
                k,
            ) {
            let (e, k) = choose|e: int, k: int|
                0 <= e < i && 0 <= k < roots.len() && roots[k].name == x && #[trigger] wants_rescan(
                    roots,
                    evs[e],
                    exts,
                    k,
                );
            if e < i - 1 {
                assert(prev.contains(x));
            }
        }
    }
}

} // verus!
