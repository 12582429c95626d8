//! The decisions of one polling cycle of the watcher: whether to publish a
//! new changelog, and what to remember once it is published.
//!
//! The watcher compares the manifest in the game's install with its own
//! snapshot, and the localization diff with the one it last published. It
//! keeps its old snapshot and its last published diff until publishing
//! succeeds, so that a failed cycle is retried with the same inputs.

use vstd::prelude::*;
use crate::changes::lemma_utf8_injective;
use crate::order::compare_bytes;

verus! {

/// What the watcher remembers between cycles.
pub struct WatchState {
    /// The localization diff last published.
    pub last_lang_diff: String,
}

/// What one cycle found.
#[derive(Debug, Clone, Copy, PartialEq, Eq, Structural)]
pub struct CyclePlan {
    /// The game's manifest differs in size from the snapshot.
    pub map_changed: bool,
    /// The localization diff differs from the one last published.
    pub lang_changed: bool,
}

impl CyclePlan {
    /// A changelog is to be generated and published.
    pub open spec fn spec_publishes(&self) -> bool {
        self.map_changed || self.lang_changed
    }

    /// A changelog is to be generated and published.
    #[verifier::when_used_as_spec(spec_publishes)]
    pub fn publishes(&self) -> (r: bool)
        ensures
            r == self.spec_publishes(),
    {
        self.map_changed || self.lang_changed
    }
}

impl WatchState {
    /// The state before the first cycle: nothing published yet.
    pub fn new() -> (s: WatchState)
        ensures
            s.last_lang_diff@ == Seq::<char>::empty(),
    {
        WatchState { last_lang_diff: String::new() }
    }

    /// What to do, given the sizes of the game's manifest and of the
    /// snapshot, and the current localization diff, if there is one.
    pub fn plan_cycle(&self, game_map_len: u64, snapshot_len: u64, lang_diff: Option<&str>) -> (p: CyclePlan)
        ensures
            p.map_changed == (game_map_len != snapshot_len),
            p.lang_changed == (lang_diff matches Some(d) && d@ != self.last_lang_diff@),
    {
        let lang_changed = match lang_diff {
            Some(d) => {
                let last = self.last_lang_diff.as_str();
                let same = compare_bytes(d.as_bytes(), last.as_bytes()) == 0;
                proof {
                    if same {
                        lemma_utf8_injective(d@, last@);
                    }
                }
                !same
            },
            None => false,
        };
        CyclePlan { map_changed: game_map_len != snapshot_len, lang_changed }
    }

    /// Records the end of a cycle that went by `plan`, and says whether the
    /// game's manifest now becomes the snapshot. Only a published changelog
    /// moves the watcher on: then a changed manifest is taken as the new
    /// snapshot and a changed localization diff as the last published one.
    pub fn complete_cycle(&mut self, plan: CyclePlan, lang_diff: Option<String>, published: bool) -> (promote: bool)
        requires
            plan.lang_changed ==> lang_diff is Some,
        ensures
            promote == (published && plan.map_changed),
            final(self).last_lang_diff@ == if published && plan.lang_changed {
                lang_diff->Some_0@
            } else {
                old(self).last_lang_diff@
            },
    {
        if published && plan.lang_changed {
            if let Some(d) = lang_diff {
                self.last_lang_diff = d;
            }
        }
        published && plan.map_changed
    }
}

} // verus!
