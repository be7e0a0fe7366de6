//! What the Linux listener makes of inotify events.
//!
//! The listener keeps a map from watch descriptors to watched directories and
//! a buffer of `MOVED_FROM` halves waiting for their `MOVED_TO` partners (by
//! cookie). Each event becomes a list of steps: the ones that need the file's
//! metadata (create, modify, move) are carried out by the caller, which stats
//! the path and reports what it finds. A `MOVED_FROM` left unpaired at the end
//! of a batch is reported as a deletion.

use vstd::prelude::*;
use std::collections::HashMap;
use crate::indexer::error::FsIndexerError;
use crate::indexer::linux::{fid_from_path, path_hash};
use crate::text::{chars_of, parse_usize, parsed_usize, push_str, string_of, trim, trimmed};

verus! {

broadcast use {vstd::string::group_string_axioms, vstd::std_specs::hash::group_hash_axioms};

/// File was modified.
pub const IN_MODIFY: u32 = 0x0000_0002;
/// Metadata changed.
pub const IN_ATTRIB: u32 = 0x0000_0004;
/// File was moved out of the watched directory.
pub const IN_MOVED_FROM: u32 = 0x0000_0040;
/// File was moved into the watched directory.
pub const IN_MOVED_TO: u32 = 0x0000_0080;
/// File or directory created in the watched directory.
pub const IN_CREATE: u32 = 0x0000_0100;
/// File or directory deleted from the watched directory.
pub const IN_DELETE: u32 = 0x0000_0200;
/// The watched directory itself was deleted.
pub const IN_DELETE_SELF: u32 = 0x0000_0400;
/// The event queue overflowed.
pub const IN_Q_OVERFLOW: u32 = 0x0000_4000;
/// The watch was removed.
pub const IN_IGNORED: u32 = 0x0000_8000;

/// The mask holds all bits of `flag`.
pub open spec fn has_flag(mask: u32, flag: u32) -> bool {
    mask & flag == flag
}

/// Whether the mask holds all bits of `flag`.
fn mask_has(mask: u32, flag: u32) -> (r: bool)
    ensures
        r == has_flag(mask, flag),
{
    mask & flag == flag
}

/// One inotify event, with its watch descriptor by number.
#[derive(Debug, Clone)]
pub struct WatchEvent {
    /// The watch descriptor's number.
    pub wd: i32,
    /// The event's mask bits.
    pub mask: u32,
    /// Cookie pairing the two halves of a move.
    pub cookie: u32,
    /// Name of the entry inside the watched directory, if any.
    pub name: Option<String>,
}

/// What the listener does for an event, in order.
#[derive(Debug, Clone)]
pub enum ListenerStep {
    /// Report that the volume needs a full rescan.
    Rescan { volume: String, reason: String },
    /// Stat `path`; if it exists report it as created, and watch it when it
    /// is a directory and `watch_if_dir` holds.
    Create { path: String, name: String, watch_if_dir: bool },
    /// Report the deletion of `fid`.
    Delete { fid: u64 },
    /// Stat `path`; if it exists report its new size.
    Modify { path: String },
    /// Stat `path` and its parent; if it exists report it as moved there
    /// under `name`.
    Move { path: String, name: String },
}

/// A step as plain values: its kind (0 rescan, 1 create, 2 delete,
/// 3 modify, 4 move), two texts, a flag and a fid.
pub open spec fn step_view(s: ListenerStep) -> (int, Seq<char>, Seq<char>, bool, u64) {
    match s {
        ListenerStep::Rescan { volume, reason } => (0, volume@, reason@, false, 0),
        ListenerStep::Create { path, name, watch_if_dir } => (1, path@, name@, watch_if_dir, 0),
        ListenerStep::Delete { fid } => (2, seq![], seq![], false, fid),
        ListenerStep::Modify { path } => (3, path@, seq![], false, 0),
        ListenerStep::Move { path, name } => (4, path@, name@, false, 0),
    }
}

/// The views of a list of steps.
pub open spec fn steps_view(s: Seq<ListenerStep>) -> Seq<(int, Seq<char>, Seq<char>, bool, u64)> {
    s.map_values(|x: ListenerStep| step_view(x))
}

/// `Path::join` on Unix: an absolute name replaces the directory; otherwise
/// a `/` goes between them unless the directory is empty or ends with one.
pub open spec fn join_name(dir: Seq<char>, name: Seq<char>) -> Seq<char> {
    if name.len() > 0 && name[0] == '/' {
        name
    } else if dir.len() == 0 || dir.last() == '/' {
        dir + name
    } else {
        dir + seq!['/'] + name
    }
}

/// Joins a name onto a directory path.
pub fn join_path(dir: &str, name: &str) -> (r: String)
    ensures
        r@ == join_name(dir@, name@),
{
    let d = chars_of(dir);
    let n = chars_of(name);
    if n.len() > 0 && n[0] == '/' {
        return name.to_string();
    }
    let mut v: Vec<char> = Vec::new();
    push_str(&mut v, dir);
    if d.len() > 0 && d[d.len() - 1] != '/' {
        v.push('/');
    }
    let ghost mid = v@;
    push_str(&mut v, name);
    proof {
        if d@.len() > 0 {
            assert(d@.last() == d@[d@.len() - 1]);
        }
        assert(v@ =~= join_name(dir@, name@));
    }
    string_of(v.as_slice())
}

/// The path an event is about: the watched directory, joined with the
/// event's name when it has one.
pub open spec fn event_path(dir: Seq<char>, name: Option<String>) -> Seq<char> {
    match name {
        Some(n) => join_name(dir, n@),
        None => dir,
    }
}

/// The event's name, empty when it has none.
pub open spec fn event_name(name: Option<String>) -> Seq<char> {
    match name {
        Some(n) => n@,
        None => seq![],
    }
}

/// The reason reported on a queue overflow.
pub open spec fn overflow_reason() -> Seq<char> {
    "inotify queue overflow"@
}

/// The pending moves with `cookie` replaced by `(cookie, fid)` at the end.
pub open spec fn remember(pending: Seq<(u32, u64)>, cookie: u32, fid: u64) -> Seq<(u32, u64)> {
    forget(pending, cookie).push((cookie, fid))
}

/// Whether a move with `cookie` is pending.
pub open spec fn is_pending(pending: Seq<(u32, u64)>, cookie: u32) -> bool {
    exists|k: int| 0 <= k < pending.len() && (#[trigger] pending[k]).0 == cookie
}

/// The pending moves without `cookie`.
pub open spec fn forget(pending: Seq<(u32, u64)>, cookie: u32) -> Seq<(u32, u64)> {
    pending.filter(other_cookie(cookie))
}

/// A pending move under another cookie.
pub open spec fn other_cookie(cookie: u32) -> spec_fn((u32, u64)) -> bool {
    |p: (u32, u64)| p.0 != cookie
}

/// The deletions reported for unpaired moves.
pub open spec fn deletions(pending: Seq<(u32, u64)>) -> Seq<(int, Seq<char>, Seq<char>, bool, u64)> {
    pending.map_values(|p: (u32, u64)| (2int, Seq::<char>::empty(), Seq::<char>::empty(), false, p.1))
}

/// Pairing of moves: once the first half of a move is buffered its cookie
/// is pending, so the second half finds it; once the second half took it,
/// it is no longer pending, so the end of the batch does not report it as a
/// deletion.
pub proof fn lemma_move_pairing(pending: Seq<(u32, u64)>, cookie: u32, fid: u64)
    ensures
        is_pending(remember(pending, cookie, fid), cookie),
        !is_pending(forget(pending, cookie), cookie),
        !is_pending(forget(remember(pending, cookie, fid), cookie), cookie),
{
    let r = remember(pending, cookie, fid);
    assert(r[r.len() - 1].0 == cookie);
    assert forall|k: int| 0 <= k < forget(pending, cookie).len() implies (#[trigger] forget(pending, cookie)[k]).0 != cookie by {
        pending.lemma_filter_pred(other_cookie(cookie), k);
    }
    assert forall|k: int| 0 <= k < forget(r, cookie).len() implies (#[trigger] forget(r, cookie)[k]).0 != cookie by {
        r.lemma_filter_pred(other_cookie(cookie), k);
    }
}

/// No cookie is pending twice.
pub open spec fn cookies_unique(pending: Seq<(u32, u64)>) -> bool {
    forall|a: int, b: int| 0 <= a < b < pending.len() ==> (#[trigger] pending[a]).0 != (#[trigger] pending[b]).0
}

/// The steps of an event on a watched directory (neither an overflow nor
/// the end of the watch), given whether its move half was pending.
pub open spec fn event_steps(mask: u32, path: Seq<char>, name: Seq<char>, recursive: bool, paired: bool) -> Seq<(int, Seq<char>, Seq<char>, bool, u64)> {
    (if has_flag(mask, IN_CREATE) {
        seq![(1int, path, name, recursive, 0u64)]
    } else {
        seq![]
    }) + (if has_flag(mask, IN_DELETE) {
        seq![(2int, Seq::<char>::empty(), Seq::<char>::empty(), false, path_hash(path))]
    } else {
        seq![]
    }) + (if has_flag(mask, IN_MODIFY) {
        seq![(3int, path, Seq::<char>::empty(), false, 0u64)]
    } else {
        seq![]
    }) + (if has_flag(mask, IN_MOVED_TO) {
        if paired {
            seq![(4int, path, name, false, 0u64)]
        } else {
            seq![(1int, path, name, false, 0u64)]
        }
    } else {
        seq![]
    })
}

/// The listener's bookkeeping between events.
pub struct InotifyState {
    watches: HashMap<i32, String>,
    pending: Vec<(u32, u64)>,
    root: String,
    recursive: bool,
}

impl InotifyState {
    /// The watched directories by watch descriptor.
    pub closed spec fn watched(&self) -> Map<i32, Seq<char>> {
        self.watches@.map_values(|s: String| s@)
    }

    /// The moves waiting for their second half: cookie and fid.
    pub closed spec fn pending_moves(&self) -> Seq<(u32, u64)> {
        self.pending@
    }

    /// The watched root.
    pub closed spec fn root_path(&self) -> Seq<char> {
        self.root@
    }

    /// Whether new directories get watched.
    pub closed spec fn watches_new_dirs(&self) -> bool {
        self.recursive
    }

    /// No cookie is pending twice.
    pub closed spec fn wf(&self) -> bool {
        cookies_unique(self.pending@)
    }

    /// A listener with no watches and nothing pending.
    pub fn new(root: String, recursive: bool) -> (r: Self)
        ensures
            r.wf(),
            r.watched() == Map::<i32, Seq<char>>::empty(),
            r.pending_moves() == Seq::<(u32, u64)>::empty(),
            r.root_path() == root@,
            r.watches_new_dirs() == recursive,
    {
        let r = InotifyState { watches: HashMap::new(), pending: Vec::new(), root, recursive };
        proof {
            assert(r.watched() =~= Map::<i32, Seq<char>>::empty());
        }
        r
    }

    /// Record a watch on `dir` under descriptor `wd`.
    pub fn add_watch(&mut self, wd: i32, dir: String)
        requires
            old(self).wf(),
        ensures
            final(self).wf(),
            final(self).watched() == old(self).watched().insert(wd, dir@),
            final(self).pending_moves() == old(self).pending_moves(),
            final(self).root_path() == old(self).root_path(),
            final(self).watches_new_dirs() == old(self).watches_new_dirs(),
    {
        self.watches.insert(wd, dir);
        proof {
            assert(self.watched() =~= old(self).watched().insert(wd, dir@));
        }
    }

    /// How many directories are watched.
    pub fn watch_count(&self) -> (r: usize)
        ensures
            r == self.watched().len(),
    {
        proof {
            assert(self.watches@.dom() =~= self.watched().dom());
            assert(self.watches@.dom().finite());
        }
        self.watches.len()
    }

    /// What a failed watch on a directory means for the setup. Running out
    /// of watches (`no_space`) ends it with the watch limit, counting the
    /// watches made so far against `max_watches` (0 when unknown); failing
    /// on the first directory (the root) ends it with the underlying error;
    /// any other failure skips the directory.
    pub fn watch_failed(&self, no_space: bool, source: String, max_watches: Option<usize>) -> (r: Option<FsIndexerError>)
        ensures
            no_space ==> r == Some(FsIndexerError::InotifyWatchLimit {
                current: self.watched().len() as usize,
                max: match max_watches {
                    Some(m) => m,
                    None => 0,
                },
            }),
            !no_space && self.watched().len() == 0 ==> r == Some(FsIndexerError::FanotifyError { source }),
            !no_space && self.watched().len() > 0 ==> r is None,
    {
        proof {
            assert(self.watches@.dom() =~= self.watched().dom());
        }
        if no_space {
            let max = match max_watches {
                Some(m) => m,
                None => 0,
            };
            return Some(FsIndexerError::InotifyWatchLimit { current: self.watches.len(), max });
        }
        if self.watches.len() == 0 {
            return Some(FsIndexerError::FanotifyError { source });
        }
        None
    }

    /// Buffer the first half of a move.
    fn remember_move(&mut self, cookie: u32, fid: u64)
        requires
            old(self).wf(),
        ensures
            final(self).wf(),
            final(self).pending@ == remember(old(self).pending@, cookie, fid),
            final(self).watches@ == old(self).watches@,
            final(self).root == old(self).root,
            final(self).recursive == old(self).recursive,
    {
        let mut kept: Vec<(u32, u64)> = Vec::new();
        let mut k: usize = 0;
        while k < self.pending.len()
            invariant
                0 <= k <= self.pending@.len(),
                kept@ == forget(self.pending@.take(k as int), cookie),
                cookies_unique(kept@),
                forall|a: int| 0 <= a < kept@.len() ==> (#[trigger] kept@[a]).0 != cookie,
                forall|a: int| 0 <= a < kept@.len() ==> exists|b: int| 0 <= b < k && self.pending@[b] == #[trigger] kept@[a],
                cookies_unique(self.pending@),
            decreases self.pending@.len() - k,
        {
            let p = self.pending[k];
            proof {
                let t = self.pending@.take(k + 1);
                assert(t.drop_last() =~= self.pending@.take(k as int));
                assert(t.last() == p);
                reveal_with_fuel(Seq::filter, 2);
            }
            if p.0 != cookie {
                proof {
                    assert forall|a: int| 0 <= a < kept@.len() implies (#[trigger] kept@[a]).0 != p.0 by {
                        let b = choose|b: int| 0 <= b < k && self.pending@[b] == kept@[a];
                        assert(self.pending@[b].0 != self.pending@[k as int].0);
                    }
                }
                let ghost before = kept@;
                kept.push(p);
                proof {
                    assert forall|a: int| 0 <= a < kept@.len() implies exists|b: int| 0 <= b < k + 1 && self.pending@[b] == #[trigger] kept@[a] by {
                        if a < before.len() {
                            assert(kept@[a] == before[a]);
                            let b = choose|b: int| 0 <= b < k && self.pending@[b] == before[a];
                            assert(0 <= b < k + 1 && self.pending@[b] == kept@[a]);
                        } else {
                            assert(self.pending@[k as int] == kept@[a]);
                        }
                    }
                }
            }
            k = k + 1;
        }
        proof {
            assert(self.pending@.take(self.pending@.len() as int) =~= self.pending@);
        }
        let ghost kv = kept@;
        kept.push((cookie, fid));
        proof {
            assert forall|a: int, b: int| 0 <= a < b < kept@.len() implies (#[trigger] kept@[a]).0 != (#[trigger] kept@[b]).0 by {
                if b == kv.len() {
                    assert(kept@[a] == kv[a]);
                } else {
                    assert(kept@[a] == kv[a] && kept@[b] == kv[b]);
                }
            }
        }
        self.pending = kept;
    }

    /// Take the first half of a move out of the buffer; whether it was there.
    fn take_move(&mut self, cookie: u32) -> (r: bool)
        requires
            old(self).wf(),
        ensures
            final(self).wf(),
            r == is_pending(old(self).pending@, cookie),
            final(self).pending@ == forget(old(self).pending@, cookie),
            final(self).watches@ == old(self).watches@,
            final(self).root == old(self).root,
            final(self).recursive == old(self).recursive,
    {
        let mut kept: Vec<(u32, u64)> = Vec::new();
        let mut found = false;
        let mut k: usize = 0;
        while k < self.pending.len()
            invariant
                0 <= k <= self.pending@.len(),
                kept@ == forget(self.pending@.take(k as int), cookie),
                found == exists|b: int| 0 <= b < k && (#[trigger] self.pending@[b]).0 == cookie,
                cookies_unique(kept@),
                forall|a: int| 0 <= a < kept@.len() ==> exists|b: int| 0 <= b < k && self.pending@[b] == #[trigger] kept@[a],
                cookies_unique(self.pending@),
            decreases self.pending@.len() - k,
        {
            let p = self.pending[k];
            proof {
                let t = self.pending@.take(k + 1);
                assert(t.drop_last() =~= self.pending@.take(k as int));
                assert(t.last() == p);
                reveal_with_fuel(Seq::filter, 2);
            }
            if p.0 != cookie {
                proof {
                    assert forall|a: int| 0 <= a < kept@.len() implies (#[trigger] kept@[a]).0 != p.0 by {
                        let b = choose|b: int| 0 <= b < k && self.pending@[b] == kept@[a];
                        assert(self.pending@[b].0 != self.pending@[k as int].0);
                    }
                }
                let ghost before = kept@;
                kept.push(p);
                proof {
                    assert forall|a: int| 0 <= a < kept@.len() implies exists|b: int| 0 <= b < k + 1 && self.pending@[b] == #[trigger] kept@[a] by {
                        if a < before.len() {
                            assert(kept@[a] == before[a]);
                            let b = choose|b: int| 0 <= b < k && self.pending@[b] == before[a];
                            assert(0 <= b < k + 1 && self.pending@[b] == kept@[a]);
                        } else {
                            assert(self.pending@[k as int] == kept@[a]);
                        }
                    }
                }
            } else {
                found = true;
            }
            proof {
                if !found {
                    assert(forall|b: int| 0 <= b < k + 1 ==> (#[trigger] self.pending@[b]).0 != cookie);
                } else {
                    if p.0 == cookie {
                        assert(self.pending@[k as int].0 == cookie);
                    }
                }
            }
            k = k + 1;
        }
        proof {
            assert(self.pending@.take(self.pending@.len() as int) =~= self.pending@);
        }
        self.pending = kept;
        found
    }

    /// What to do for one event. A queue overflow asks for a rescan; events
    /// on unknown watches are dropped; the end of a watch forgets it;
    /// otherwise creation, deletion, modification and the two halves of a
    /// move are handled in that order.
    pub fn plan_event(&mut self, ev: &WatchEvent) -> (r: Vec<ListenerStep>)
        requires
            old(self).wf(),
        ensures
            final(self).wf(),
            final(self).root_path() == old(self).root_path(),
            final(self).watches_new_dirs() == old(self).watches_new_dirs(),
            has_flag(ev.mask, IN_Q_OVERFLOW) ==> {
                &&& steps_view(r@) == seq![(0int, old(self).root_path(), overflow_reason(), false, 0u64)]
                &&& final(self).watched() == old(self).watched()
                &&& final(self).pending_moves() == old(self).pending_moves()
            },
            !has_flag(ev.mask, IN_Q_OVERFLOW) && !old(self).watched().contains_key(ev.wd) ==> {
                &&& r@.len() == 0
                &&& final(self).watched() == old(self).watched()
                &&& final(self).pending_moves() == old(self).pending_moves()
            },
            !has_flag(ev.mask, IN_Q_OVERFLOW) && old(self).watched().contains_key(ev.wd) && (has_flag(ev.mask, IN_DELETE_SELF) || has_flag(ev.mask, IN_IGNORED)) ==> {
                &&& r@.len() == 0
                &&& final(self).watched() == old(self).watched().remove(ev.wd)
                &&& final(self).pending_moves() == old(self).pending_moves()
            },
            !has_flag(ev.mask, IN_Q_OVERFLOW) && old(self).watched().contains_key(ev.wd) && !has_flag(ev.mask, IN_DELETE_SELF) && !has_flag(ev.mask, IN_IGNORED) ==> {
                let path = event_path(old(self).watched()[ev.wd], ev.name);
                let after_from = if has_flag(ev.mask, IN_MOVED_FROM) {
                    remember(old(self).pending_moves(), ev.cookie, path_hash(path))
                } else {
                    old(self).pending_moves()
                };
                &&& final(self).watched() == old(self).watched()
                &&& steps_view(r@) == event_steps(ev.mask, path, event_name(ev.name), old(self).watches_new_dirs(), is_pending(after_from, ev.cookie))
                &&& final(self).pending_moves() == if has_flag(ev.mask, IN_MOVED_TO) {
                    forget(after_from, ev.cookie)
                } else {
                    after_from
                }
            },
    {
        let mut steps: Vec<ListenerStep> = Vec::new();
        if mask_has(ev.mask, IN_Q_OVERFLOW) {
            let reason = "inotify queue overflow".to_string();
            steps.push(ListenerStep::Rescan { volume: self.root.clone(), reason });
            proof {
                assert(steps_view(steps@) =~= seq![(0int, old(self).root_path(), overflow_reason(), false, 0u64)]);
            }
            return steps;
        }
        let dir: String = match self.watches.get(&ev.wd) {
            Some(d) => d.clone(),
            None => {
                return steps;
            },
        };
        let path: String = match &ev.name {
            Some(n) => join_path(dir.as_str(), n.as_str()),
            None => dir,
        };
        if mask_has(ev.mask, IN_DELETE_SELF) || mask_has(ev.mask, IN_IGNORED) {
            self.watches.remove(&ev.wd);
            proof {
                assert(self.watched() =~= old(self).watched().remove(ev.wd));
            }
            return steps;
        }
        let name: String = match &ev.name {
            Some(n) => n.clone(),
            None => String::new(),
        };
        let ghost s0 = steps_view(steps@);
        if mask_has(ev.mask, IN_CREATE) {
            steps.push(ListenerStep::Create { path: path.clone(), name: name.clone(), watch_if_dir: self.recursive });
        }
        let ghost s1 = steps_view(steps@);
        if mask_has(ev.mask, IN_DELETE) {
            let fid = fid_from_path(path.as_str());
            steps.push(ListenerStep::Delete { fid });
        }
        let ghost s2 = steps_view(steps@);
        if mask_has(ev.mask, IN_MODIFY) {
            steps.push(ListenerStep::Modify { path: path.clone() });
        }
        let ghost s3 = steps_view(steps@);
        if mask_has(ev.mask, IN_MOVED_FROM) {
            let fid = fid_from_path(path.as_str());
            self.remember_move(ev.cookie, fid);
        }
        let ghost after_from = self.pending@;
        if mask_has(ev.mask, IN_MOVED_TO) {
            let paired = self.take_move(ev.cookie);
            if paired {
                steps.push(ListenerStep::Move { path: path.clone(), name: name.clone() });
            } else {
                steps.push(ListenerStep::Create { path: path.clone(), name: name.clone(), watch_if_dir: false });
            }
        }
        proof {
            let p = event_path(old(self).watched()[ev.wd], ev.name);
            assert(path@ == p);
            assert(name@ == event_name(ev.name));
            assert(self.watched() =~= old(self).watched());
            assert(steps_view(steps@) =~= event_steps(ev.mask, p, event_name(ev.name), old(self).watches_new_dirs(), is_pending(after_from, ev.cookie)));
        }
        steps
    }

    /// The end of a batch: every move still waiting for its second half is
    /// reported as a deletion, in the order they came, and the buffer is
    /// emptied.
    pub fn end_batch(&mut self) -> (r: Vec<ListenerStep>)
        requires
            old(self).wf(),
        ensures
            final(self).wf(),
            steps_view(r@) == deletions(old(self).pending_moves()),
            final(self).pending_moves() == Seq::<(u32, u64)>::empty(),
            final(self).watched() == old(self).watched(),
            final(self).root_path() == old(self).root_path(),
            final(self).watches_new_dirs() == old(self).watches_new_dirs(),
    {
        let mut steps: Vec<ListenerStep> = Vec::new();
        let mut k: usize = 0;
        while k < self.pending.len()
            invariant
                0 <= k <= self.pending@.len(),
                steps_view(steps@) == deletions(self.pending@.take(k as int)),
            decreases self.pending@.len() - k,
        {
            let ghost before = steps@;
            let d = ListenerStep::Delete { fid: self.pending[k].1 };
            steps.push(d);
            proof {
                assert(steps_view(steps@) =~= steps_view(before).push(step_view(d)));
                assert(self.pending@.take(k + 1) =~= self.pending@.take(k as int).push(self.pending@[k as int]));
                assert(steps_view(steps@) =~= deletions(self.pending@.take(k + 1)));
            }
            k = k + 1;
        }
        proof {
            assert(self.pending@.take(self.pending@.len() as int) =~= self.pending@);
        }
        self.pending = Vec::new();
        steps
    }
}

/// The kernel's watch limit from the text of
/// `/proc/sys/fs/inotify/max_user_watches`: the trimmed text as a number.
pub fn parse_max_watches(text: &str) -> (r: Option<usize>)
    ensures
        r == parsed_usize(trim(text@)),
{
    let v = chars_of(text);
    let t = trimmed(v.as_slice());
    parse_usize(t.as_slice())
}

} // verus!
