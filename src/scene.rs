//! The root scheduler: owns the actions that run side by side and drives
//! them once per tick.
use vstd::prelude::*;
use crate::action::{Action, Phase};

verus! {

/// Every action of `s` is well formed and has been begun, not ended.
pub open spec fn all_active(s: Seq<Action>) -> bool {
    forall|i: int| 0 <= i < s.len() ==> (#[trigger] s[i]).wf() && s[i].phase() == Phase::Active
}

/// Every action of `s` is unfinished.
pub open spec fn all_unfinished(s: Seq<Action>) -> bool {
    forall|i: int| 0 <= i < s.len() ==> !(#[trigger] s[i]).spec_finished()
}

/// The unfinished actions of `s`, in order.
pub open spec fn unfinished(s: Seq<Action>) -> Seq<Action>
    decreases s.len(),
{
    if s.len() == 0 {
        Seq::empty()
    } else if s.last().spec_finished() {
        unfinished(s.drop_last())
    } else {
        unfinished(s.drop_last()).push(s.last())
    }
}

/// The actions that `s` holds, in order.
pub open spec fn present(s: Seq<Option<Action>>) -> Seq<Action>
    decreases s.len(),
{
    if s.len() == 0 {
        Seq::empty()
    } else {
        match s.last() {
            Some(a) => present(s.drop_last()).push(a),
            None => present(s.drop_last()),
        }
    }
}

/// One tick from `roots` to `next`, through its intermediate states. Root
/// `k` is updated by `dt` into `updated[k]`, which then hands out
/// `branches[k]` and becomes `after[k]`; a branch handed out is begun into
/// `begun[k]`. The roots kept are the unfinished ones of `after`, in order,
/// then the unfinished begun branches, in order.
pub open spec fn tick_trace(
    roots: Seq<Action>,
    dt: nat,
    next: Seq<Action>,
    updated: Seq<Action>,
    branches: Seq<Option<Action>>,
    after: Seq<Action>,
    begun: Seq<Option<Action>>,
) -> bool {
    &&& updated.len() == roots.len()
    &&& branches.len() == roots.len()
    &&& after.len() == roots.len()
    &&& begun.len() == roots.len()
    &&& forall|k: int|
        0 <= k < roots.len() ==> {
            &&& (#[trigger] roots[k]).stepped(dt, updated[k])
            &&& updated[k].forked(branches[k], after[k])
            &&& branches[k] is None ==> begun[k] is None
            &&& branches[k] matches Some(b) ==> begun[k] matches Some(c) && b.began(c)
        }
    &&& next == unfinished(after) + unfinished(present(begun))
}

/// `next` is what one tick by `dt` makes of `roots`.
pub open spec fn ticked(roots: Seq<Action>, dt: nat, next: Seq<Action>) -> bool {
    exists|
        updated: Seq<Action>,
        branches: Seq<Option<Action>>,
        after: Seq<Action>,
        begun: Seq<Option<Action>>,
    | #[trigger] tick_trace(roots, dt, next, updated, branches, after, begun)
}

/// The pool of root actions, each advanced independently.
pub struct Scene {
    actions: Vec<Action>,
}

impl Scene {
    /// The roots currently tracked.
    pub closed spec fn roots(&self) -> Seq<Action> {
        self.actions@
    }

    pub open spec fn wf(&self) -> bool {
        all_active(self.roots())
    }

    pub fn new() -> (r: Scene)
        ensures
            r.wf(),
            r.roots().len() == 0,
    {
        Scene { actions: Vec::new() }
    }

    /// Begins `action` and tracks it as a new root.
    pub fn add_action(&mut self, action: Action)
        requires
            old(self).wf(),
            action.wf(),
            action.phase() == Phase::Idle,
        ensures
            final(self).wf(),
            final(self).roots().len() == old(self).roots().len() + 1,
            forall|i: int|
                0 <= i < old(self).roots().len() ==> #[trigger] final(self).roots()[i]
                    == old(self).roots()[i],
            action.began(final(self).roots()[old(self).roots().len() as int]),
    {
        let mut action = action;
        action.begin();
        self.actions.push(action);
    }

    /// Advances every root by `dtime`, takes in the branch each one hands
    /// out (begun, as a new root), then ends and drops every finished root.
    pub fn tick(&mut self, dtime: u64)
        requires
            old(self).wf(),
        ensures
            final(self).wf(),
            all_unfinished(final(self).roots()),
            ticked(old(self).roots(), dtime as nat, final(self).roots()),
    {
        let mut pending: Vec<Action> = Vec::new();
        std::mem::swap(&mut self.actions, &mut pending);
        let ghost roots = pending@;
        let ghost mut updated: Seq<Action> = Seq::empty();
        let ghost mut branches: Seq<Option<Action>> = Seq::empty();
        let ghost mut after: Seq<Action> = Seq::empty();
        let ghost mut begun: Seq<Option<Action>> = Seq::empty();
        let mut kept: Vec<Action> = Vec::new();
        let mut forked: Vec<Action> = Vec::new();
        while pending.len() > 0
            invariant
                all_active(pending@),
                all_active(kept@),
                all_unfinished(kept@),
                all_active(forked@),
                pending.len() <= roots.len(),
                pending@ == roots.subrange(roots.len() - pending.len(), roots.len() as int),
                updated.len() == roots.len() - pending.len(),
                branches.len() == updated.len(),
                after.len() == updated.len(),
                begun.len() == updated.len(),
                forall|k: int|
                    0 <= k < updated.len() ==> {
                        &&& (#[trigger] roots[k]).stepped(dtime as nat, updated[k])
                        &&& updated[k].forked(branches[k], after[k])
                        &&& branches[k] is None ==> begun[k] is None
                        &&& branches[k] matches Some(b) ==> begun[k] matches Some(c) && b.began(c)
                    },
                kept@ == unfinished(after),
                forked@ == present(begun),
            decreases pending.len(),
        {
            let ghost p = updated.len();
            let mut root = pending.remove(0);
            assert(root == roots[p as int]);
            root.update(dtime);
            let ghost u = root;
            let branch = root.try_fork();
            let ghost a = root;
            let ghost c: Option<Action> = None;
            match branch {
                Some(b) => {
                    let mut b = b;
                    b.begin();
                    proof {
                        c = Some(b);
                    }
                    forked.push(b);
                },
                None => {},
            }
            proof {
                assert(after.push(a).drop_last() =~= after);
                assert(begun.push(c).drop_last() =~= begun);
                updated = updated.push(u);
                branches = branches.push(branch);
                after = after.push(a);
                begun = begun.push(c);
                assert(pending@ =~= roots.subrange(roots.len() - pending.len(), roots.len() as int));
            }
            if root.is_finished() {
                root.end();
            } else {
                kept.push(root);
            }
        }
        let ghost all_begun = present(begun);
        let ghost kept_roots = kept@;
        while forked.len() > 0
            invariant
                all_active(kept@),
                all_unfinished(kept@),
                all_active(forked@),
                forked.len() <= all_begun.len(),
                forked@ == all_begun.subrange(all_begun.len() - forked.len(), all_begun.len() as int),
                kept@ == kept_roots + unfinished(all_begun.subrange(0, all_begun.len() - forked.len())),
            decreases forked.len(),
        {
            let ghost q = all_begun.len() - forked.len();
            let branch = forked.remove(0);
            let mut branch = branch;
            proof {
                assert(branch == all_begun[q]);
                assert(all_begun.subrange(0, q + 1).drop_last() =~= all_begun.subrange(0, q));
                assert(forked@ =~= all_begun.subrange(all_begun.len() - forked.len(), all_begun.len() as int));
            }
            if branch.is_finished() {
                branch.end();
            } else {
                kept.push(branch);
            }
        }
        proof {
            assert(all_begun.subrange(0, all_begun.len() as int) =~= all_begun);
            assert(tick_trace(roots, dtime as nat, kept@, updated, branches, after, begun));
        }
        self.actions = kept;
    }

    /// Whether some tracked root is still unfinished.
    pub fn any_unfinished_actions(&self) -> (r: bool)
        ensures
            r == exists|i: int| 0 <= i < self.roots().len() && !(#[trigger] self.roots()[i]).spec_finished(),
    {
        let mut i: usize = 0;
        while i < self.actions.len()
            invariant
                i <= self.actions.len(),
                forall|j: int| 0 <= j < i ==> (#[trigger] self.actions@[j]).spec_finished(),
            decreases self.actions.len() - i,
        {
            if !self.actions[i].is_finished() {
                assert(!self.roots()[i as int].spec_finished());
                return true;
            }
            i = i + 1;
        }
        false
    }

    /// The number of roots tracked.
    pub fn active_count(&self) -> (r: usize)
        ensures
            r == self.roots().len(),
    {
        self.actions.len()
    }
}

} // verus!
