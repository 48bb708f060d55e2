//! Actions: timed units of behaviour, composed serially by `Sequence` and
//! detached into independent branches by `Fork`.
use vstd::prelude::*;

verus! {

/// Where an action stands in its lifecycle: not begun, begun, or ended.
#[derive(PartialEq, Eq, Structural, Clone, Copy, Debug)]
pub enum Phase {
    Idle,
    Active,
    Ended,
}

/// An RGBA color.
#[derive(PartialEq, Eq, Structural, Clone, Copy, Debug)]
pub struct Color {
    pub r: u8,
    pub g: u8,
    pub b: u8,
    pub a: u8,
}

/// What a leaf action does to the visual state it targets.
#[derive(PartialEq, Eq, Structural, Clone, Copy, Debug)]
pub enum Effect {
    Empty,
    Sleep,
    MoveBy { dx: i32, dy: i32 },
    SetColor(Color),
    Show,
    Hide,
}

/// A terminal action: an effect played out over a fixed time.
pub struct Leaf {
    effect: Effect,
    duration: u64,
    elapsed: u64,
}

/// Serial composition: actions run strictly one at a time, front first.
pub struct Sequence {
    actions: Vec<Action>,
    duration: u64,
}

/// Holds one action until it is polled out as an independent branch.
pub struct Fork {
    action: Option<Box<Action>>,
}

/// The kinds of action.
#[derive(PartialEq, Eq, Structural, Clone, Copy, Debug)]
pub enum Kind {
    Leaf,
    Sequence,
    Fork,
}

enum Body {
    Leaf(Leaf),
    Sequence(Sequence),
    Fork(Fork),
}

/// The polymorphic unit that containers own and drive through
/// `begin`, `update`, `try_fork`, `is_finished` and `end`.
pub struct Action {
    phase: Phase,
    body: Body,
}

/// Sum of the declared durations of `s`.
pub open spec fn total_duration(s: Seq<Action>) -> nat
    decreases s.len(),
{
    if s.len() == 0 {
        0
    } else {
        s[0].spec_duration() + total_duration(s.drop_first())
    }
}

/// Sum of the time that the leaves of `s` still need.
pub open spec fn remaining_sum(s: Seq<Action>) -> nat
    decreases s.len(),
{
    if s.len() == 0 {
        0
    } else {
        s[0].leaf_remaining() + remaining_sum(s.drop_first())
    }
}

/// Sum of a run of elapsed times.
pub open spec fn total_time(dts: Seq<nat>) -> nat
    decreases dts.len(),
{
    if dts.len() == 0 {
        0
    } else {
        total_time(dts.drop_last()) + dts.last()
    }
}

pub open spec fn min_nat(a: nat, b: nat) -> nat {
    if a <= b {
        a
    } else {
        b
    }
}

/// `delta` scaled by the share `elapsed / duration` of the time played,
/// rounded toward zero; all of it when there is no time to play.
pub open spec fn scaled(delta: int, elapsed: nat, duration: nat) -> int {
    if duration == 0 {
        delta
    } else if delta >= 0 {
        delta * (elapsed as int) / (duration as int)
    } else {
        -((-delta) * (elapsed as int) / (duration as int))
    }
}

fn scale(delta: i32, elapsed: u64, duration: u64) -> (r: i64)
    requires
        elapsed <= duration,
    ensures
        r == scaled(delta as int, elapsed as nat, duration as nat),
{
    if duration == 0 {
        return delta as i64;
    }
    let magnitude: u64 = if delta < 0 {
        (0i64 - delta as i64) as u64
    } else {
        delta as u64
    };
    let ghost m = magnitude as int;
    let ghost e = elapsed as int;
    let ghost d = duration as int;
    proof {
        assert(m * e <= m * d) by (nonlinear_arith)
            requires
                0 <= m,
                e <= d,
        ;
        assert(m * d <= 0x8000_0000 * 0xffff_ffff_ffff_ffff) by (nonlinear_arith)
            requires
                0 <= m <= 0x8000_0000,
                0 <= d <= 0xffff_ffff_ffff_ffff,
        ;
        vstd::arithmetic::div_mod::lemma_div_is_ordered(m * e, m * d, d);
        vstd::arithmetic::div_mod::lemma_div_by_multiple(m, d);
        assert(0 <= m * e) by (nonlinear_arith)
            requires
                0 <= m,
                0 <= e,
        ;
        vstd::arithmetic::div_mod::lemma_div_pos_is_pos(m * e, d);
    }
    let product: u128 = magnitude as u128 * elapsed as u128;
    let part: u128 = product / duration as u128;
    if delta < 0 {
        0i64 - part as i64
    } else {
        part as i64
    }
}

/// Every action of `s` is well formed and not yet begun.
pub open spec fn all_idle(s: Seq<Action>) -> bool {
    forall|i: int| 0 <= i < s.len() ==> (#[trigger] s[i]).wf() && s[i].phase() == Phase::Idle
}

impl Action {
    pub closed spec fn phase(&self) -> Phase {
        self.phase
    }

    /// Which of the three kinds of action this is.
    pub closed spec fn kind(&self) -> Kind {
        match self.body {
            Body::Leaf(_) => Kind::Leaf,
            Body::Sequence(_) => Kind::Sequence,
            Body::Fork(_) => Kind::Fork,
        }
    }

    pub open spec fn is_leaf(&self) -> bool {
        self.kind() == Kind::Leaf
    }

    pub open spec fn is_sequence(&self) -> bool {
        self.kind() == Kind::Sequence
    }

    pub open spec fn is_fork(&self) -> bool {
        self.kind() == Kind::Fork
    }

    /// The action's own declared time; a fork declares none.
    pub closed spec fn spec_duration(&self) -> nat {
        match self.body {
            Body::Leaf(l) => l.duration as nat,
            Body::Sequence(s) => s.duration as nat,
            Body::Fork(_) => 0,
        }
    }

    /// A leaf is finished once its time has run out, a sequence once its
    /// queue is empty, a fork once it has been drained.
    pub open spec fn spec_finished(&self) -> bool {
        if self.is_leaf() {
            self.elapsed() >= self.spec_duration()
        } else if self.is_sequence() {
            self.children().len() == 0
        } else {
            self.pending() is None
        }
    }

    /// The time a leaf has played so far.
    pub closed spec fn elapsed(&self) -> nat {
        match self.body {
            Body::Leaf(l) => l.elapsed as nat,
            _ => 0,
        }
    }

    /// The effect of a leaf.
    pub closed spec fn effect(&self) -> Effect {
        match self.body {
            Body::Leaf(l) => l.effect,
            _ => Effect::Empty,
        }
    }

    /// How far a move-by leaf has moved its target so far: its delta scaled
    /// by the share of its time that has played. Other actions move nothing.
    pub closed spec fn spec_offset(&self) -> (int, int) {
        match self.body {
            Body::Leaf(l) => match l.effect {
                Effect::MoveBy { dx, dy } => (
                    scaled(dx as int, l.elapsed as nat, l.duration as nat),
                    scaled(dy as int, l.elapsed as nat, l.duration as nat),
                ),
                _ => (0, 0),
            },
            _ => (0, 0),
        }
    }

    /// The queue of a sequence, front first.
    pub closed spec fn children(&self) -> Seq<Action> {
        match self.body {
            Body::Sequence(s) => s.actions@,
            _ => Seq::empty(),
        }
    }

    /// The action that a fork still holds.
    pub closed spec fn pending(&self) -> Option<Action> {
        match self.body {
            Body::Fork(f) => match f.action {
                Some(b) => Some(*b),
                None => None,
            },
            _ => None,
        }
    }

    /// The time a leaf still needs before it is finished.
    pub open spec fn leaf_remaining(&self) -> nat {
        if self.is_leaf() && self.elapsed() <= self.spec_duration() {
            (self.spec_duration() - self.elapsed()) as nat
        } else {
            0
        }
    }

    /// A sequence whose queue holds leaves only.
    pub open spec fn is_flat(&self) -> bool {
        &&& self.is_sequence()
        &&& forall|i: int| 0 <= i < self.children().len() ==> (#[trigger] self.children()[i]).is_leaf()
    }

    /// The time the front of a flat sequence still needs.
    pub open spec fn front_remaining(&self) -> nat {
        if self.children().len() > 0 {
            self.children()[0].leaf_remaining()
        } else {
            0
        }
    }

    /// Structural well-formedness: progress stays within the declared time,
    /// at most the front of a queue has been begun (and only if the queue
    /// itself has), nothing ended stays in a container, and a fork holds an
    /// action that has not been begun.
    pub closed spec fn wf(&self) -> bool
        decreases self,
    {
        match self.body {
            Body::Leaf(l) => {
                &&& l.elapsed <= l.duration
                &&& self.phase == Phase::Idle ==> l.elapsed == 0
                &&& self.phase == Phase::Ended ==> l.elapsed == l.duration
            },
            Body::Sequence(s) => {
                &&& forall|i: int| 0 <= i < s.actions.len() ==> (#[trigger] s.actions@[i]).wf()
                &&& forall|i: int|
                    1 <= i < s.actions.len() ==> (#[trigger] s.actions@[i]).phase == Phase::Idle
                &&& s.actions.len() > 0 ==> s.actions@[0].phase == (if self.phase == Phase::Active {
                    Phase::Active
                } else {
                    Phase::Idle
                })
                &&& self.phase == Phase::Ended ==> s.actions.len() == 0
                &&& self.phase == Phase::Idle ==> s.duration == total_duration(s.actions@)
            },
            Body::Fork(f) => {
                &&& match f.action {
                    Some(a) => a.wf() && a.phase == Phase::Idle,
                    None => true,
                }
                &&& self.phase == Phase::Ended ==> f.action is None
            },
        }
    }

    /// `next` has the same kind and declared time as `self`.
    pub open spec fn same_kind(self, next: Action) -> bool {
        &&& next.is_leaf() == self.is_leaf()
        &&& next.is_sequence() == self.is_sequence()
        &&& next.is_fork() == self.is_fork()
        &&& next.spec_duration() == self.spec_duration()
    }

    /// `next` holds the same progress as `self`.
    pub open spec fn same_progress(self, next: Action) -> bool {
        &&& self.same_kind(next)
        &&& next.spec_finished() == self.spec_finished()
        &&& next.elapsed() == self.elapsed()
        &&& next.leaf_remaining() == self.leaf_remaining()
        &&& next.effect() == self.effect()
    }

    /// What `begin` does: the action becomes active, its progress is kept,
    /// and in a sequence only the front is begun.
    pub open spec fn began(self, next: Action) -> bool
        decreases self,
    {
        &&& next.wf()
        &&& next.phase() == Phase::Active
        &&& self.same_progress(next)
        &&& next.children().len() == self.children().len()
        &&& forall|i: int|
            1 <= i < self.children().len() ==> #[trigger] next.children()[i] == self.children()[i]
        &&& self.children().len() > 0 ==> self.children()[0].began(next.children()[0])
        &&& next.pending() == self.pending()
    }

    /// What `update(dt)` does. A leaf advances by `dt`, up to its declared
    /// time. A fork is unchanged. A sequence forwards `dt` to its front;
    /// then, while the front is finished, it ends and drops the front and
    /// begins the next one, all in the same call. So afterwards its queue is
    /// empty or its front is unfinished, and `next`'s queue is what is left of
    /// `self`'s after the first `j` were retired: the front after its update
    /// (finished), then `j - 1` actions that were finished at once.
    pub open spec fn stepped(self, dt: nat, next: Action) -> bool
        decreases self,
    {
        &&& next.wf()
        &&& next.phase() == Phase::Active
        &&& self.same_kind(next)
        &&& self.is_leaf() ==> {
            &&& next.elapsed() == min_nat(self.elapsed() + dt, self.spec_duration())
            &&& next.effect() == self.effect()
        }
        &&& self.is_sequence() ==> {
            let s = self.children();
            let t = next.children();
            let j = s.len() - t.len();
            &&& t.len() <= s.len()
            &&& t.len() == 0 || !t[0].spec_finished()
            &&& s.len() == 0 ==> next == self
            &&& forall|i: int| 1 <= i < t.len() ==> #[trigger] t[i] == s[i + j]
            &&& s.len() > 0 && j == 0 ==> s[0].stepped(dt, t[0])
            &&& s.len() > 0 && j > 0 ==> s[0].finishes_within(dt)
            &&& forall|i: int| 1 <= i < j ==> (#[trigger] s[i]).spec_finished()
            &&& j > 0 && t.len() > 0 ==> s[j].began(t[0])
        }
        &&& self.is_flat() ==> {
            &&& next.is_flat()
            &&& remaining_sum(next.children()) == remaining_sum(self.children()) - min_nat(
                dt,
                self.front_remaining(),
            )
        }
        &&& self.is_fork() ==> next == self
    }

    /// Whether an update by `dt` leaves the action finished: a leaf whose
    /// time runs out, a drained fork, or a sequence whose front finishes and
    /// whose other actions are all finished already.
    pub open spec fn finishes_within(self, dt: nat) -> bool
        decreases self,
    {
        if self.is_leaf() {
            self.elapsed() + dt >= self.spec_duration()
        } else if self.is_sequence() {
            let s = self.children();
            s.len() == 0 || (s[0].finishes_within(dt) && forall|i: int|
                1 <= i < s.len() ==> (#[trigger] s[i]).spec_finished())
        } else {
            self.spec_finished()
        }
    }

    /// The branch that `try_fork` hands out now: what a fork holds, what the
    /// front of a sequence hands out, nothing from a leaf.
    pub open spec fn branch_of(self) -> Option<Action>
        decreases self,
    {
        if self.is_fork() {
            self.pending()
        } else if self.is_sequence() && self.children().len() > 0 {
            self.children()[0].branch_of()
        } else {
            None
        }
    }

    /// Whether handing out a branch leaves the action finished: a fork, or a
    /// sequence whose only action drains so.
    pub open spec fn drains_on_fork(self) -> bool
        decreases self,
    {
        if self.is_fork() {
            true
        } else if self.is_sequence() {
            self.children().len() == 1 && self.children()[0].drains_on_fork()
        } else {
            false
        }
    }

    /// What `try_fork` does. It hands out `branch_of()`, well formed and not
    /// yet begun. A leaf is unchanged, a fork is drained. A sequence asks its
    /// front; when the front handed out a branch and is then finished, it is
    /// ended and dropped and the next one begun.
    pub open spec fn forked(self, r: Option<Action>, next: Action) -> bool
        decreases self,
    {
        &&& next.wf()
        &&& next.phase() == Phase::Active
        &&& self.same_kind(next)
        &&& r == self.branch_of()
        &&& r matches Some(f) ==> f.wf() && f.phase() == Phase::Idle
        &&& self.is_leaf() ==> next == self
        &&& self.is_fork() ==> next.pending() is None
        &&& self.is_sequence() ==> {
            let s = self.children();
            let t = next.children();
            &&& s.len() == 0 ==> next == self
            &&& s.len() > 0 && r is Some && s[0].drains_on_fork() ==> {
                &&& t.len() == s.len() - 1
                &&& forall|i: int| 1 <= i < t.len() ==> #[trigger] t[i] == s[i + 1]
                &&& t.len() > 0 ==> s[1].began(t[0])
            }
            &&& s.len() > 0 && !(r is Some && s[0].drains_on_fork()) ==> {
                &&& t.len() == s.len()
                &&& s[0].forked(r, t[0])
                &&& forall|i: int| 1 <= i < t.len() ==> #[trigger] t[i] == s[i]
            }
        }
    }

    /// What `end` does: the action is marked ended, nothing else changes.
    pub open spec fn ended(self, next: Action) -> bool {
        &&& next.wf()
        &&& next.phase() == Phase::Ended
        &&& self.same_progress(next)
        &&& next.children() == self.children()
        &&& next.pending() == self.pending()
    }

    /// Establishes the action's initial state. Called once, before any update.
    pub fn begin(&mut self)
        requires
            old(self).wf(),
            old(self).phase() == Phase::Idle,
        ensures
            old(self).began(*final(self)),
        decreases *old(self),
    {
        match &mut self.body {
            Body::Leaf(_) => {},
            Body::Sequence(s) => {
                s.begin_front();
            },
            Body::Fork(_) => {},
        }
        self.phase = Phase::Active;
    }

    /// Advances the action by `dtime` nanoseconds.
    pub fn update(&mut self, dtime: u64)
        requires
            old(self).wf(),
            old(self).phase() == Phase::Active,
        ensures
            old(self).stepped(dtime as nat, *final(self)),
        decreases *old(self),
    {
        match &mut self.body {
            Body::Leaf(l) => {
                l.advance(dtime);
            },
            Body::Sequence(s) => {
                s.update(dtime);
            },
            Body::Fork(_) => {},
        }
    }

    /// Finalizes the action. Only a begun, finished action may be ended,
    /// and it is ended once.
    pub fn end(&mut self)
        requires
            old(self).wf(),
            old(self).phase() == Phase::Active,
            old(self).spec_finished(),
        ensures
            old(self).ended(*final(self)),
    {
        self.phase = Phase::Ended;
    }

    /// The action's own declared time, ignoring any branch it forks off.
    pub fn duration(&self) -> (r: u64)
        ensures
            r == self.spec_duration(),
    {
        match &self.body {
            Body::Leaf(l) => l.duration,
            Body::Sequence(s) => s.duration,
            Body::Fork(_) => 0,
        }
    }

    /// Hands out an independently owned branch, if one is due now.
    pub fn try_fork(&mut self) -> (r: Option<Action>)
        requires
            old(self).wf(),
            old(self).phase() == Phase::Active,
        ensures
            old(self).forked(r, *final(self)),
        decreases *old(self),
    {
        match &mut self.body {
            Body::Leaf(_) => None,
            Body::Sequence(s) => s.try_fork(),
            Body::Fork(f) => f.take(),
        }
    }

    /// How far this action has moved its target so far.
    pub fn offset(&self) -> (r: (i64, i64))
        requires
            self.wf(),
        ensures
            r.0 == self.spec_offset().0,
            r.1 == self.spec_offset().1,
    {
        match &self.body {
            Body::Leaf(l) => match l.effect {
                Effect::MoveBy { dx, dy } => (
                    scale(dx, l.elapsed, l.duration),
                    scale(dy, l.elapsed, l.duration),
                ),
                _ => (0, 0),
            },
            _ => (0, 0),
        }
    }

    pub fn is_finished(&self) -> (r: bool)
        ensures
            r == self.spec_finished(),
    {
        match &self.body {
            Body::Leaf(l) => l.elapsed >= l.duration,
            Body::Sequence(s) => s.actions.len() == 0,
            Body::Fork(f) => f.action.is_none(),
        }
    }
}

/// Every action of `s` is a leaf.
pub open spec fn all_leaves(s: Seq<Action>) -> bool {
    forall|i: int| 0 <= i < s.len() ==> (#[trigger] s[i]).is_leaf()
}

/// The queue of a begun sequence: all well formed, the front begun, the
/// rest not.
pub open spec fn active_queue(s: Seq<Action>) -> bool {
    &&& forall|i: int| 0 <= i < s.len() ==> (#[trigger] s[i]).wf()
    &&& forall|i: int| 1 <= i < s.len() ==> (#[trigger] s[i]).phase() == Phase::Idle
    &&& s.len() > 0 ==> s[0].phase() == Phase::Active
}

proof fn lemma_stepped_finished(a: Action, dt: nat, b: Action)
    requires
        a.stepped(dt, b),
    ensures
        b.spec_finished() <==> a.finishes_within(dt),
    decreases a,
{
    if a.is_sequence() {
        let s = a.children();
        let t = b.children();
        if s.len() > 0 {
            let j = s.len() - t.len();
            if j == 0 {
                lemma_stepped_finished(s[0], dt, t[0]);
            } else if t.len() > 0 {
                assert(s[j].began(t[0]));
            }
        }
    }
}

proof fn lemma_forked_finished(a: Action, r: Option<Action>, b: Action)
    requires
        a.forked(r, b),
        r is Some,
    ensures
        b.spec_finished() <==> a.drains_on_fork(),
{
}

spec fn as_active(s: Sequence) -> Action {
    Action { phase: Phase::Active, body: Body::Sequence(s) }
}

proof fn lemma_suffix_le(s: Seq<Action>, i: int)
    requires
        0 <= i <= s.len(),
    ensures
        total_duration(s.subrange(i, s.len() as int)) <= total_duration(s),
    decreases i,
{
    if i == 0 {
        assert(s.subrange(0, s.len() as int) =~= s);
    } else {
        lemma_suffix_le(s, i - 1);
        assert(s.subrange(i - 1, s.len() as int).drop_first() =~= s.subrange(i, s.len() as int));
    }
}

proof fn lemma_sum_front(s: Seq<Action>, t: Seq<Action>)
    requires
        s.len() > 0,
        t.len() > 0,
        s.drop_first() =~= t.drop_first(),
    ensures
        remaining_sum(t) + s[0].leaf_remaining() == remaining_sum(s) + t[0].leaf_remaining(),
{
}

impl Leaf {
    /// Not yet played.
    pub closed spec fn ready(&self) -> bool {
        self.elapsed == 0
    }

    pub closed spec fn spec_duration(&self) -> nat {
        self.duration as nat
    }

    pub closed spec fn spec_effect(&self) -> Effect {
        self.effect
    }

    fn advance(&mut self, dtime: u64)
        requires
            old(self).elapsed <= old(self).duration,
        ensures
            final(self).elapsed == min_nat((old(self).elapsed + dtime) as nat, old(self).duration as nat),
            final(self).duration == old(self).duration,
            final(self).effect == old(self).effect,
    {
        if dtime >= self.duration - self.elapsed {
            self.elapsed = self.duration;
        } else {
            self.elapsed = self.elapsed + dtime;
        }
    }

    /// An instant action that does nothing.
    pub fn empty() -> (r: Leaf)
        ensures
            r.ready(),
            r.spec_duration() == 0,
            r.spec_effect() == Effect::Empty,
    {
        Leaf { effect: Effect::Empty, duration: 0, elapsed: 0 }
    }

    /// Waits for `duration` nanoseconds.
    pub fn sleep(duration: u64) -> (r: Leaf)
        ensures
            r.ready(),
            r.spec_duration() == duration,
            r.spec_effect() == Effect::Sleep,
    {
        Leaf { effect: Effect::Sleep, duration, elapsed: 0 }
    }

    /// Moves its target by `(dx, dy)` over `duration` nanoseconds.
    pub fn move_by(dx: i32, dy: i32, duration: u64) -> (r: Leaf)
        ensures
            r.ready(),
            r.spec_duration() == duration,
            r.spec_effect() == (Effect::MoveBy { dx, dy }),
    {
        Leaf { effect: Effect::MoveBy { dx, dy }, duration, elapsed: 0 }
    }

    /// Sets its target's color, instantly.
    pub fn set_color(color: Color) -> (r: Leaf)
        ensures
            r.ready(),
            r.spec_duration() == 0,
            r.spec_effect() == Effect::SetColor(color),
    {
        Leaf { effect: Effect::SetColor(color), duration: 0, elapsed: 0 }
    }

    /// Makes its target visible, instantly.
    pub fn show_target() -> (r: Leaf)
        ensures
            r.ready(),
            r.spec_duration() == 0,
            r.spec_effect() == Effect::Show,
    {
        Leaf { effect: Effect::Show, duration: 0, elapsed: 0 }
    }

    /// Hides its target, instantly.
    pub fn hide_target() -> (r: Leaf)
        ensures
            r.ready(),
            r.spec_duration() == 0,
            r.spec_effect() == Effect::Hide,
    {
        Leaf { effect: Effect::Hide, duration: 0, elapsed: 0 }
    }
}

impl Sequence {
    /// The queue, front first.
    pub closed spec fn queue(&self) -> Seq<Action> {
        self.actions@
    }

    pub closed spec fn spec_duration(&self) -> nat {
        self.duration as nat
    }

    /// Built and not yet begun: the declared time is the sum of the queue's.
    pub closed spec fn ready(&self) -> bool {
        &&& all_idle(self.actions@)
        &&& self.duration == total_duration(self.actions@)
    }

    /// Queues `actions` in order; the declared time is the sum of theirs.
    pub fn new(actions: Vec<Action>) -> (r: Sequence)
        requires
            all_idle(actions@),
            total_duration(actions@) <= u64::MAX,
        ensures
            r.ready(),
            r.queue() == actions@,
            r.spec_duration() == total_duration(actions@),
    {
        let mut total_time: u64 = 0;
        let mut i: usize = actions.len();
        while i > 0
            invariant
                i <= actions.len(),
                total_time == total_duration(actions@.subrange(i as int, actions.len() as int)),
                total_duration(actions@) <= u64::MAX,
            decreases i,
        {
            proof {
                lemma_suffix_le(actions@, i - 1);
                assert(actions@.subrange(i - 1, actions.len() as int).drop_first()
                    =~= actions@.subrange(i as int, actions.len() as int));
            }
            total_time = total_time + actions[i - 1].duration();
            i = i - 1;
        }
        assert(actions@.subrange(0, actions.len() as int) =~= actions@);
        Sequence { actions, duration: total_time }
    }

    fn begin_front(&mut self)
        requires
            all_idle(old(self).actions@),
        ensures
            final(self).duration == old(self).duration,
            final(self).actions.len() == old(self).actions.len(),
            forall|i: int|
                1 <= i < old(self).actions.len() ==> #[trigger] final(self).actions@[i]
                    == old(self).actions@[i],
            old(self).actions.len() > 0 ==> old(self).actions@[0].began(final(self).actions@[0]),
        decreases *old(self),
    {
        if self.actions.len() > 0 {
            let mut front = self.actions.remove(0);
            front.begin();
            self.actions.insert(0, front);
        }
    }

    fn end_current_action_and_start_next(&mut self)
        requires
            active_queue(old(self).actions@),
            old(self).actions.len() > 0,
            old(self).actions@[0].spec_finished(),
        ensures
            active_queue(final(self).actions@),
            final(self).duration == old(self).duration,
            final(self).actions.len() == old(self).actions.len() - 1,
            forall|i: int|
                1 <= i < final(self).actions.len() ==> #[trigger] final(self).actions@[i]
                    == old(self).actions@[i + 1],
            final(self).actions.len() > 0 ==> old(self).actions@[1].began(
                final(self).actions@[0],
            ),
    {
        let mut front = self.actions.remove(0);
        front.end();
        self.begin_front();
    }

    fn update(&mut self, dtime: u64)
        requires
            active_queue(old(self).actions@),
        ensures
            active_queue(final(self).actions@),
            final(self).duration == old(self).duration,
            final(self).actions.len() <= old(self).actions.len(),
            final(self).actions.len() == 0 || !final(self).actions@[0].spec_finished(),
            old(self).actions.len() == 0 ==> *final(self) == *old(self),
            old(self).actions.len() > 0 && all_leaves(old(self).actions@) ==> {
                &&& all_leaves(final(self).actions@)
                &&& remaining_sum(final(self).actions@) == remaining_sum(old(self).actions@)
                    - min_nat(dtime as nat, old(self).actions@[0].leaf_remaining())
            },
            as_active(*old(self)).stepped(dtime as nat, as_active(*final(self))),
        decreases *old(self),
    {
        if self.actions.len() == 0 {
            return;
        }
        let ghost s0 = self.actions@;
        let mut front = self.actions.remove(0);
        front.update(dtime);
        self.actions.insert(0, front);
        proof {
            assert(s0.drop_first() =~= self.actions@.drop_first());
            lemma_sum_front(s0, self.actions@);
        }
        while self.actions.len() > 0 && self.actions[0].is_finished()
            invariant
                active_queue(self.actions@),
                self.duration == old(self).duration,
                self.actions.len() <= s0.len(),
                s0 == old(self).actions@,
                s0.len() > 0,
                forall|i: int|
                    1 <= i < self.actions.len() ==> #[trigger] self.actions@[i] == s0[i + (s0.len()
                        - self.actions.len())],
                self.actions.len() == s0.len() ==> s0[0].stepped(dtime as nat, self.actions@[0]),
                self.actions.len() < s0.len() ==> s0[0].finishes_within(dtime as nat),
                forall|i: int|
                    1 <= i < s0.len() - self.actions.len() ==> (#[trigger] s0[i]).spec_finished(),
                self.actions.len() < s0.len() && self.actions.len() > 0 ==> s0[s0.len()
                    - self.actions.len()].began(self.actions@[0]),
                all_leaves(s0) ==> {
                    &&& all_leaves(self.actions@)
                    &&& remaining_sum(self.actions@) == remaining_sum(s0) - min_nat(
                        dtime as nat,
                        s0[0].leaf_remaining(),
                    )
                },
            decreases self.actions.len(),
        {
            let ghost s1 = self.actions@;
            proof {
                if s1.len() == s0.len() {
                    lemma_stepped_finished(s0[0], dtime as nat, s1[0]);
                } else {
                    assert(s0[s0.len() - s1.len()].spec_finished());
                }
            }
            self.end_current_action_and_start_next();
            proof {
                let j = s0.len() - s1.len();
                assert forall|i: int|
                    1 <= i < self.actions.len() implies #[trigger] self.actions@[i] == s0[i + (
                    s0.len() - self.actions.len())] by {
                    assert(self.actions@[i] == s1[i + 1]);
                }
                if self.actions.len() > 0 {
                    assert(s1[1] == s0[1 + j]);
                }
                if all_leaves(s0) {
                    assert(s1[0].is_leaf());
                    if self.actions.len() > 0 {
                        assert(self.actions@.drop_first() =~= s1.drop_first().drop_first());
                        lemma_sum_front(s1.drop_first(), self.actions@);
                    }
                    assert forall|i: int| 0 <= i < self.actions.len() implies (
                    #[trigger] self.actions@[i]).is_leaf() by {
                        if i == 0 {
                            assert(s1[1].is_leaf());
                        } else {
                            assert(s1[i + 1].is_leaf());
                        }
                    }
                }
            }
        }
        proof {
            let a = as_active(*old(self));
            let b = as_active(*self);
            assert(b.body == Body::Sequence(*self));
            assert(b.children() == self.actions@);
            assert(b.wf());
            assert(a.children() == s0);
            assert(a.same_kind(b));
            if a.is_flat() {
                assert(all_leaves(s0));
                assert(b.is_flat());
                assert(a.front_remaining() == s0[0].leaf_remaining());
                assert(remaining_sum(b.children()) == remaining_sum(a.children()) - min_nat(
                    dtime as nat,
                    a.front_remaining(),
                ));
            }
            let t = self.actions@;
            let j = s0.len() - t.len();
            assert(forall|i: int| 1 <= i < t.len() ==> #[trigger] t[i] == s0[i + j]);
            assert(j == 0 ==> s0[0].stepped(dtime as nat, t[0]));
            assert(forall|i: int| 1 <= i < j ==> (#[trigger] s0[i]).spec_finished());
            assert(j > 0 && t.len() > 0 ==> s0[j].began(t[0]));
            assert(a.stepped(dtime as nat, b));
        }
    }

    fn try_fork(&mut self) -> (r: Option<Action>)
        requires
            active_queue(old(self).actions@),
        ensures
            active_queue(final(self).actions@),
            final(self).duration == old(self).duration,
            final(self).actions.len() <= old(self).actions.len(),
            old(self).actions.len() == 0 ==> r is None && *final(self) == *old(self),
            r matches Some(f) ==> f.wf() && f.phase() == Phase::Idle,
            as_active(*old(self)).forked(r, as_active(*final(self))),
        decreases *old(self),
    {
        if self.actions.len() == 0 {
            return None;
        }
        let ghost s0 = self.actions@;
        let mut front = self.actions.remove(0);
        let forked_action = front.try_fork();
        let finished = front.is_finished();
        let ghost f = front;
        self.actions.insert(0, front);
        proof {
            assert(self.actions@ =~= s0.update(0, f));
            if forked_action is Some {
                lemma_forked_finished(s0[0], forked_action, f);
            }
        }
        if forked_action.is_some() && finished {
            let ghost s1 = self.actions@;
            self.end_current_action_and_start_next();
            proof {
                assert forall|i: int| 1 <= i < self.actions.len() implies #[trigger] self.actions@[i]
                    == s0[i + 1] by {
                    assert(self.actions@[i] == s1[i + 1]);
                }
            }
        }
        proof {
            let a = as_active(*old(self));
            let b = as_active(*self);
            assert(a.children() == s0);
            assert(b.children() == self.actions@);
            assert(b.wf());
            assert(a.forked(forked_action, b));
        }
        forked_action
    }
}

impl Fork {
    /// The action still held.
    pub closed spec fn spec_pending(&self) -> Option<Action> {
        match self.action {
            Some(b) => Some(*b),
            None => None,
        }
    }

    /// Holds an action that is well formed and not yet begun.
    pub closed spec fn ready(&self) -> bool {
        match self.action {
            Some(a) => a.wf() && a.phase() == Phase::Idle,
            None => true,
        }
    }

    /// Wraps `action`, to be detached as an independent branch.
    pub fn new(action: Action) -> (r: Fork)
        requires
            action.wf(),
            action.phase() == Phase::Idle,
        ensures
            r.ready(),
            r.spec_pending() == Some(action),
    {
        Fork { action: Some(Box::new(action)) }
    }

    fn take(&mut self) -> (r: Option<Action>)
        ensures
            r == old(self).spec_pending(),
            final(self).action is None,
    {
        let taken = self.action.take();
        match taken {
            Some(b) => Some(*b),
            None => None,
        }
    }
}

proof fn lemma_idle_leaves(s: Seq<Action>)
    requires
        all_idle(s),
        all_leaves(s),
    ensures
        remaining_sum(s) == total_duration(s),
    decreases s.len(),
{
    if s.len() > 0 {
        assert(s[0].wf() && s[0].is_leaf());
        lemma_idle_leaves(s.drop_first());
    }
}

proof fn lemma_flat_run(states: Seq<Action>, dts: Seq<nat>)
    requires
        states.len() == dts.len() + 1,
        states[0].is_flat(),
        forall|k: int|
            0 <= k < dts.len() ==> (#[trigger] states[k]).stepped(dts[k], states[k + 1]),
        forall|k: int| 0 <= k < dts.len() ==> dts[k] <= (#[trigger] states[k]).front_remaining(),
    ensures
        states.last().is_flat(),
        remaining_sum(states.last().children()) + total_time(dts) == remaining_sum(
            states[0].children(),
        ),
    decreases dts.len(),
{
    if dts.len() > 0 {
        let n = dts.len() - 1;
        let s = states.drop_last();
        let d = dts.drop_last();
        assert forall|k: int| 0 <= k < d.len() implies (#[trigger] s[k]).stepped(d[k], s[k + 1]) by {
            assert(states[k].stepped(dts[k], states[k + 1]));
        }
        assert forall|k: int| 0 <= k < d.len() implies d[k] <= (#[trigger] s[k]).front_remaining() by {
            assert(dts[k] <= states[k].front_remaining());
        }
        lemma_flat_run(s, d);
        assert(states[n].stepped(dts[n], states[n + 1]));
        assert(dts[n] <= states[n].front_remaining());
    }
}

/// The declared time of a sequence is the sum of the declared times of the
/// actions it was built from, and neither beginning it nor any run of
/// updates changes it.
pub proof fn lemma_duration_fixed(
    items: Seq<Action>,
    built: Action,
    states: Seq<Action>,
    dts: Seq<nat>,
)
    requires
        built.is_sequence(),
        built.children() == items,
        built.spec_duration() == total_duration(items),
        states.len() == dts.len() + 1,
        built.began(states[0]),
        forall|k: int|
            0 <= k < dts.len() ==> (#[trigger] states[k]).stepped(dts[k], states[k + 1]),
    ensures
        forall|k: int|
            0 <= k < states.len() ==> (#[trigger] states[k]).spec_duration() == total_duration(items),
    decreases dts.len(),
{
    if dts.len() > 0 {
        let n = dts.len() - 1;
        let s = states.drop_last();
        let d = dts.drop_last();
        assert forall|k: int| 0 <= k < d.len() implies (#[trigger] s[k]).stepped(d[k], s[k + 1]) by {
            assert(states[k].stepped(dts[k], states[k + 1]));
        }
        lemma_duration_fixed(items, built, s, d);
        assert(states[n].stepped(dts[n], states[n + 1]));
        assert forall|k: int| 0 <= k < states.len() implies (#[trigger] states[k]).spec_duration()
            == total_duration(items) by {
            assert(s[n as int] == states[n as int]);
            if k < n + 1 {
                assert(s[k] == states[k]);
            }
        }
    }
}

/// A flat sequence (one whose queue holds leaves only), begun and then
/// updated by a run of at least one update none of which runs past the end
/// of the action active at that time, is finished once the updates add up
/// to its declared time.
pub proof fn lemma_flat_sequence_finishes(built: Action, states: Seq<Action>, dts: Seq<nat>)
    requires
        built.wf(),
        built.phase() == Phase::Idle,
        built.is_flat(),
        states.len() == dts.len() + 1,
        dts.len() >= 1,
        built.began(states[0]),
        forall|k: int|
            0 <= k < dts.len() ==> (#[trigger] states[k]).stepped(dts[k], states[k + 1]),
        forall|k: int| 0 <= k < dts.len() ==> dts[k] <= (#[trigger] states[k]).front_remaining(),
        total_time(dts) >= built.spec_duration(),
    ensures
        states.last().spec_finished(),
{
    let c = built.children();
    assert(all_idle(c));
    lemma_idle_leaves(c);
    let c0 = states[0].children();
    if c.len() > 0 {
        reveal_with_fuel(Action::began, 2);
        assert(c[0].began(c0[0]));
        assert(c0[0].is_leaf());
        assert(c.drop_first() =~= c0.drop_first());
        lemma_sum_front(c, c0);
    }
    assert forall|i: int| 0 <= i < c0.len() implies (#[trigger] c0[i]).is_leaf() by {
        assert(c[i].is_leaf());
        if i > 0 {
            assert(c0[i] == c[i]);
        }
    }
    lemma_flat_run(states, dts);
    let n = dts.len() - 1;
    assert(states[n].stepped(dts[n], states[n + 1]));
    let last = states.last();
    if last.children().len() > 0 {
        assert(last.children()[0].is_leaf());
        assert(remaining_sum(last.children()) >= last.children()[0].leaf_remaining());
    }
}

/// `end` is the last step of an action's life: an ended action is
/// finished, and it is no longer active, so `end`, `update` and `try_fork`
/// (which all ask for an active action) can never be called on it again.
pub proof fn lemma_ended_once(a: Action, b: Action)
    requires
        a.ended(b),
    ensures
        b.spec_finished(),
        a.spec_finished(),
        b.phase() != Phase::Active,
{
}

/// A fork yields the action it holds on its first `try_fork` and nothing on
/// any later one, and it reports finished as soon as it is drained.
pub proof fn lemma_fork_yields_once(
    f0: Action,
    r1: Option<Action>,
    f1: Action,
    r2: Option<Action>,
    f2: Action,
)
    requires
        f0.is_fork(),
        f0.forked(r1, f1),
        f1.forked(r2, f2),
    ensures
        r1 == f0.pending(),
        f0.pending() is Some ==> r1 is Some,
        f1.spec_finished(),
        r2 is None,
        f2.spec_finished(),
{
}

/// Turns a built action into the polymorphic unit that containers own.
pub trait Boxed {
    fn boxed(self) -> Action;
}

impl Boxed for Leaf {
    fn boxed(self) -> (r: Action)
        ensures
            self.ready() ==> r.wf(),
            r.phase() == Phase::Idle,
            r.is_leaf(),
            r.spec_duration() == self.spec_duration(),
            r.effect() == self.spec_effect(),
            self.ready() ==> r.elapsed() == 0,
    {
        Action { phase: Phase::Idle, body: Body::Leaf(self) }
    }
}

impl Boxed for Sequence {
    fn boxed(self) -> (r: Action)
        ensures
            self.ready() ==> r.wf(),
            r.phase() == Phase::Idle,
            r.is_sequence(),
            r.spec_duration() == self.spec_duration(),
            r.children() == self.queue(),
    {
        Action { phase: Phase::Idle, body: Body::Sequence(self) }
    }
}

impl Boxed for Fork {
    fn boxed(self) -> (r: Action)
        ensures
            self.ready() ==> r.wf(),
            r.phase() == Phase::Idle,
            r.is_fork(),
            r.spec_duration() == 0,
            r.pending() == self.spec_pending(),
    {
        Action { phase: Phase::Idle, body: Body::Fork(self) }
    }
}

} // verus!
