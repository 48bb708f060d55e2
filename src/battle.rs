//! The battle screen's state: the scene whose actions animate the battle.
use vstd::prelude::*;
use crate::action::Action;
use crate::scene::{all_unfinished, ticked, Scene};

verus! {

/// The battle screen: advances its scene once per frame.
pub struct BattleScreen {
    scene: Scene,
}

impl BattleScreen {
    pub closed spec fn spec_scene(&self) -> Scene {
        self.scene
    }

    pub open spec fn wf(&self) -> bool {
        self.spec_scene().wf()
    }

    pub fn new() -> (r: BattleScreen)
        ensures
            r.wf(),
            r.spec_scene().roots().len() == 0,
    {
        BattleScreen { scene: Scene::new() }
    }

    /// Starts an animation on the battle's scene.
    pub fn add_action(&mut self, action: Action)
        requires
            old(self).wf(),
            action.wf(),
            action.phase() == crate::action::Phase::Idle,
        ensures
            final(self).wf(),
            final(self).spec_scene().roots().len() == old(self).spec_scene().roots().len() + 1,
    {
        self.scene.add_action(action);
    }

    /// Advances the battle's animations by the frame's elapsed time.
    pub fn update(&mut self, dtime: u64)
        requires
            old(self).wf(),
        ensures
            final(self).wf(),
            all_unfinished(final(self).spec_scene().roots()),
            ticked(old(self).spec_scene().roots(), dtime as nat, final(self).spec_scene().roots()),
    {
        self.scene.tick(dtime);
    }

    /// Whether some animation is still playing, so that turn logic waits.
    pub fn is_animating(&self) -> (r: bool)
        ensures
            r == exists|i: int|
                0 <= i < self.spec_scene().roots().len() && !(#[trigger] self.spec_scene().roots()[i]).spec_finished(),
    {
        let r = self.scene.any_unfinished_actions();
        proof {
            let roots = self.scene.roots();
            if r {
                let i = choose|i: int| 0 <= i < roots.len() && !(#[trigger] roots[i]).spec_finished();
                assert(!self.spec_scene().roots()[i].spec_finished());
            }
        }
        r
    }
}

} // verus!
