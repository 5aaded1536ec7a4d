//! The decisions of the update loop: when to distribute a snapshot, when to
//! send keep-alives, and when to wait for a viewer.
use vstd::prelude::*;

use crate::tokens::TokenValue;

verus! {

/// What the loop does at the end of one cycle.
#[derive(Clone, Copy, Debug, PartialEq, Eq, Structural)]
pub enum CycleAction {
    /// Send the new snapshot to this viewer.
    Distribute(TokenValue),
    /// Send a keep-alive to every admitted viewer.
    KeepAlive,
    /// A new snapshot is held back until a viewer is admitted.
    WaitForViewer,
    /// Nothing to send: no viewer is admitted.
    Idle,
}

/// The state that the update loop carries from cycle to cycle.
pub struct UpdateState {
    /// The hash of the snapshot that was last distributed.
    pub last_hash: Option<u64>,
    /// The admitted viewers, each once.
    pub viewers: Vec<TokenValue>,
}

pub struct UpdateView {
    pub last_hash: Option<u64>,
    pub viewers: Seq<TokenValue>,
}

impl UpdateState {
    pub open spec fn view(&self) -> UpdateView {
        UpdateView { last_hash: self.last_hash, viewers: self.viewers@ }
    }
}

/// The state after a viewer is admitted: it is listed, and the next snapshot
/// counts as changed.
pub open spec fn joined_spec(s: UpdateView, t: TokenValue) -> UpdateView {
    UpdateView {
        last_hash: None,
        viewers: if s.viewers.contains(t) {
            s.viewers
        } else {
            s.viewers.push(t)
        },
    }
}

/// The state after a viewer leaves.
pub open spec fn left_spec(s: UpdateView, t: TokenValue) -> UpdateView {
    UpdateView { last_hash: s.last_hash, viewers: without(s.viewers, t) }
}

/// `s` with every occurrence of `t` taken out.
pub open spec fn without(s: Seq<TokenValue>, t: TokenValue) -> Seq<TokenValue>
    decreases s.len(),
{
    if s.len() == 0 {
        s
    } else {
        let r = without(s.drop_last(), t);
        if s.last() == t {
            r
        } else {
            r.push(s.last())
        }
    }
}

/// One cycle: `hash` is the hash of this cycle's snapshot, if there is one;
/// `pick` chooses the viewer that receives a changed snapshot.
pub open spec fn cycle_spec(s: UpdateView, hash: Option<u64>, pick: usize) -> (
    UpdateView,
    CycleAction,
) {
    let changed = hash is Some && s.last_hash != hash;
    if changed && s.viewers.len() > 0 {
        (
            UpdateView { last_hash: hash, viewers: s.viewers },
            CycleAction::Distribute(s.viewers[pick as int % s.viewers.len() as int]),
        )
    } else if changed {
        (s, CycleAction::WaitForViewer)
    } else if s.viewers.len() > 0 {
        (s, CycleAction::KeepAlive)
    } else {
        (s, CycleAction::Idle)
    }
}

impl UpdateState {
    /// No viewer, and no snapshot distributed yet.
    pub fn new() -> (r: UpdateState)
        ensures
            r@.last_hash is None,
            r@.viewers == Seq::<TokenValue>::empty(),
    {
        UpdateState { last_hash: None, viewers: Vec::new() }
    }

    /// A viewer was admitted.
    pub fn on_acquire(&mut self, t: TokenValue)
        ensures
            final(self)@ == joined_spec(old(self)@, t),
    {
        self.last_hash = None;
        let mut i: usize = 0;
        while i < self.viewers.len()
            invariant
                i <= self.viewers.len(),
                self.viewers@ == old(self).viewers@,
                self.last_hash is None,
                forall|k: int| 0 <= k < i ==> self.viewers@[k] != t,
            decreases self.viewers.len() - i,
        {
            if self.viewers[i] == t {
                assert(self.viewers@.contains(t));
                return;
            }
            i = i + 1;
        }
        self.viewers.push(t);
    }

    /// A viewer left.
    pub fn on_release(&mut self, t: TokenValue)
        ensures
            final(self)@ == left_spec(old(self)@, t),
    {
        let ghost old_v = self.viewers@;
        let mut kept: Vec<TokenValue> = Vec::new();
        let mut i: usize = 0;
        assert(old_v.take(0) =~= seq![]);
        while i < self.viewers.len()
            invariant
                i <= self.viewers.len(),
                self.viewers@ == old_v,
                kept@ == without(old_v.take(i as int), t),
            decreases self.viewers.len() - i,
        {
            let v = self.viewers[i];
            assert(old_v.take(i + 1).drop_last() =~= old_v.take(i as int));
            if v != t {
                kept.push(v);
            }
            i = i + 1;
        }
        assert(old_v.take(i as int) =~= old_v);
        self.viewers = kept;
    }

    /// Decides one cycle, given the hash of this cycle's snapshot if there is one.
    pub fn cycle(&mut self, hash: Option<u64>, pick: usize) -> (r: CycleAction)
        ensures
            (final(self)@, r) == cycle_spec(old(self)@, hash, pick),
    {
        let changed = match hash {
            Some(h) => match self.last_hash {
                Some(p) => p != h,
                None => true,
            },
            None => false,
        };
        let n = self.viewers.len();
        if changed && n > 0 {
            self.last_hash = hash;
            CycleAction::Distribute(self.viewers[pick % n])
        } else if changed {
            CycleAction::WaitForViewer
        } else if n > 0 {
            CycleAction::KeepAlive
        } else {
            CycleAction::Idle
        }
    }

    /// Decides one cycle for the encoded snapshot `payload`, if there is one.
    pub fn cycle_payload(&mut self, payload: Option<&str>, pick: usize) -> (r: CycleAction)
        ensures
            (final(self)@, r) == cycle_spec(
                old(self)@,
                match payload {
                    Some(p) => Some(crate::topology::name_hash(p@)),
                    None => None,
                },
                pick,
            ),
    {
        let hash = match payload {
            Some(p) => Some(crate::topology::router2id(p)),
            None => None,
        };
        self.cycle(hash, pick)
    }
}

/// Two cycles in a row with the same snapshot: the second distributes nothing,
/// whichever viewers left in between (`s2` keeps the hash and only viewers of `s1`).
pub proof fn lemma_same_snapshot_not_resent(
    s: UpdateView,
    s2: UpdateView,
    h: u64,
    pick1: usize,
    pick2: usize,
)
    requires
        s2.last_hash == cycle_spec(s, Some(h), pick1).0.last_hash,
        forall|v: TokenValue|
            s2.viewers.contains(v) ==> cycle_spec(s, Some(h), pick1).0.viewers.contains(v),
    ensures
        !(cycle_spec(s2, Some(h), pick2).1 is Distribute),
{
    let s1 = cycle_spec(s, Some(h), pick1).0;
    if s2.viewers.len() > 0 {
        assert(s2.viewers.contains(s2.viewers[0]));
        assert(s1.viewers.contains(s2.viewers[0]));
    }
}

/// A cycle right after a viewer is admitted distributes its snapshot, even
/// one that was distributed before.
pub proof fn lemma_new_viewer_gets_snapshot(s: UpdateView, t: TokenValue, h: u64, pick: usize)
    ensures
        cycle_spec(joined_spec(s, t), Some(h), pick).1 is Distribute,
{
    let a = joined_spec(s, t);
    if !s.viewers.contains(t) {
        assert(a.viewers.len() > 0);
    } else {
        assert(a.viewers.len() > 0);
    }
}

} // verus!
