//! Wins, losses and draws per participant name.

use crate::player::Player;
use crate::types::GameResult;
use vstd::prelude::*;

verus! {

/// Counts `(wins, losses, draws)` after one more `result`.
pub open spec fn bumped(c: (nat, nat, nat), result: GameResult) -> (nat, nat, nat) {
    match result {
        GameResult::Win => (c.0 + 1, c.1, c.2),
        GameResult::Loss => (c.0, c.1 + 1, c.2),
        GameResult::Draw => (c.0, c.1, c.2 + 1),
    }
}

/// One participant's record.
#[derive(Debug)]
pub struct PlayerStats {
    wins: u32,
    losses: u32,
    draws: u32,
}

impl Default for PlayerStats {
    fn default() -> (r: PlayerStats)
        ensures
            r.counts() == (0nat, 0nat, 0nat),
    {
        PlayerStats::new()
    }
}

impl PlayerStats {
    /// `(wins, losses, draws)`.
    pub closed spec fn counts(&self) -> (nat, nat, nat) {
        (self.wins as nat, self.losses as nat, self.draws as nat)
    }

    /// The number of games recorded.
    pub open spec fn spec_total(&self) -> nat {
        self.counts().0 + self.counts().1 + self.counts().2
    }

    /// The games recorded fit a `u32` count.
    pub open spec fn wf(&self) -> bool {
        self.spec_total() <= u32::MAX
    }

    /// A record with no games.
    pub fn new() -> (r: PlayerStats)
        ensures
            r.counts() == (0nat, 0nat, 0nat),
            r.wf(),
    {
        PlayerStats { wins: 0, losses: 0, draws: 0 }
    }

    /// Counts one more game with outcome `result`.
    pub fn add_result(&mut self, result: GameResult)
        requires
            old(self).spec_total() < u32::MAX,
        ensures
            final(self).counts() == bumped(old(self).counts(), result),
            final(self).wf(),
    {
        match result {
            GameResult::Win => self.wins = self.wins + 1,
            GameResult::Loss => self.losses = self.losses + 1,
            GameResult::Draw => self.draws = self.draws + 1,
        }
    }

    /// The number of games won.
    pub fn wins(&self) -> (r: u32)
        ensures
            r == self.counts().0,
    {
        self.wins
    }

    /// The number of games recorded.
    pub fn total_games(&self) -> (r: u32)
        requires
            self.wf(),
        ensures
            r == self.spec_total(),
    {
        self.wins + self.losses + self.draws
    }
}

/// Records keyed by participant name, one per name.
#[derive(Debug)]
pub struct ScoreBoard {
    stats: Vec<(String, PlayerStats)>,
}

impl Default for ScoreBoard {
    fn default() -> (r: ScoreBoard)
        ensures
            r.wf(),
            forall|name: Seq<char>| r.record_of(name).is_none(),
    {
        ScoreBoard::new()
    }
}

impl ScoreBoard {
    /// The entries, in the order the names were first seen.
    pub closed spec fn entries(&self) -> Seq<(String, PlayerStats)> {
        self.stats@
    }

    /// No name has two entries, and every record fits its counts.
    pub open spec fn wf(&self) -> bool {
        &&& forall|i: int, j: int|
            0 <= i < j < self.entries().len() ==> (#[trigger] self.entries()[i]).0@ != (#[trigger] self.entries()[j]).0@
        &&& forall|i: int| 0 <= i < self.entries().len() ==> (#[trigger] self.entries()[i]).1.wf()
    }

    /// The counts recorded for `name`, if any.
    pub open spec fn record_of(&self, name: Seq<char>) -> Option<(nat, nat, nat)> {
        if exists|i: int| 0 <= i < self.entries().len() && (#[trigger] self.entries()[i]).0@ == name {
            let i = choose|i: int| 0 <= i < self.entries().len() && (#[trigger] self.entries()[i]).0@ == name;
            Some(self.entries()[i].1.counts())
        } else {
            None
        }
    }

    /// A scoreboard with no records.
    pub fn new() -> (r: ScoreBoard)
        ensures
            r.wf(),
            forall|name: Seq<char>| r.record_of(name).is_none(),
    {
        ScoreBoard { stats: Vec::new() }
    }

    /// The record of the entry at `i` is the one its name looks up.
    proof fn lemma_record_at(&self, i: int)
        requires
            self.wf(),
            0 <= i < self.entries().len(),
        ensures
            self.record_of(self.entries()[i].0@) == Some(self.entries()[i].1.counts()),
    {
        let name = self.entries()[i].0@;
        assert(0 <= i < self.entries().len() && self.entries()[i].0@ == name);
        let k = choose|k: int| 0 <= k < self.entries().len() && (#[trigger] self.entries()[k]).0@ == name;
        if k < i {
            assert(self.entries()[k].0@ != self.entries()[i].0@);
        } else if k > i {
            assert(self.entries()[i].0@ != self.entries()[k].0@);
        }
    }

    /// Counts one more game with outcome `result` for `player`'s name.
    pub fn record_result(&mut self, player: &Player, result: GameResult)
        requires
            old(self).wf(),
            old(self).record_of(player.spec_name()@) matches Some(c) ==> c.0 + c.1 + c.2 < u32::MAX,
        ensures
            final(self).wf(),
            final(self).record_of(player.spec_name()@) == Some(
                bumped(
                    match old(self).record_of(player.spec_name()@) {
                        Some(c) => c,
                        None => (0nat, 0nat, 0nat),
                    },
                    result,
                ),
            ),
            forall|name: Seq<char>| name != player.spec_name()@ ==> #[trigger] final(self).record_of(name) == old(self).record_of(name),
    {
        let ghost key = player.spec_name()@;
        let name_of_player: String = player.name().to_owned();
        let mut i: usize = 0;
        while i < self.stats.len()
            invariant
                self.stats@ == old(self).stats@,
                old(self).wf(),
                key == player.spec_name()@,
                old(self).record_of(key) matches Some(c) ==> c.0 + c.1 + c.2 < u32::MAX,
                name_of_player@ == key,
                i <= self.stats@.len(),
                forall|k: int| 0 <= k < i ==> (#[trigger] self.stats@[k]).0@ != key,
            decreases self.stats@.len() - i,
        {
            if self.stats[i].0 == name_of_player {
                proof {
                    old(self).lemma_record_at(i as int);
                    assert(old(self).entries()[i as int].1.wf());
                }
                self.stats[i].1.add_result(result);
                proof {
                    assert forall|k: int| 0 <= k < self.stats@.len() && k != i implies #[trigger] self.stats@[k] == old(self).stats@[k] by {}
                    assert forall|a: int, b: int|
                        0 <= a < b < self.entries().len() implies (#[trigger] self.entries()[a]).0@ != (#[trigger] self.entries()[b]).0@ by {
                        assert(old(self).entries()[a].0@ != old(self).entries()[b].0@);
                    }
                    assert forall|a: int| 0 <= a < self.entries().len() implies (#[trigger] self.entries()[a]).1.wf() by {
                        assert(old(self).entries()[a].1.wf());
                    }
                    self.lemma_record_at(i as int);
                    assert forall|name2: Seq<char>| name2 != key implies #[trigger] self.record_of(name2) == old(self).record_of(name2) by {
                        if exists|k: int| 0 <= k < self.entries().len() && (#[trigger] self.entries()[k]).0@ == name2 {
                            let k = choose|k: int| 0 <= k < self.entries().len() && (#[trigger] self.entries()[k]).0@ == name2;
                            self.lemma_record_at(k);
                            old(self).lemma_record_at(k);
                        } else {
                            assert forall|k: int| 0 <= k < old(self).entries().len() implies (#[trigger] old(self).entries()[k]).0@ != name2 by {
                                assert(self.entries()[k].0@ != name2);
                            }
                        }
                    }
                }
                return;
            }
            i += 1;
        }
        let mut entry = PlayerStats::new();
        entry.add_result(result);
        self.stats.push((name_of_player, entry));
        proof {
            let n = old(self).stats@.len() as int;
            assert forall|k: int| 0 <= k < n implies #[trigger] self.stats@[k] == old(self).stats@[k] by {}
            assert forall|a: int, b: int|
                0 <= a < b < self.entries().len() implies (#[trigger] self.entries()[a]).0@ != (#[trigger] self.entries()[b]).0@ by {
                if b < n {
                    assert(old(self).entries()[a].0@ != old(self).entries()[b].0@);
                }
            }
            assert forall|a: int| 0 <= a < self.entries().len() implies (#[trigger] self.entries()[a]).1.wf() by {
                if a < n {
                    assert(old(self).entries()[a].1.wf());
                }
            }
            self.lemma_record_at(n);
            assert(old(self).record_of(key).is_none());
            assert forall|name2: Seq<char>| name2 != key implies #[trigger] self.record_of(name2) == old(self).record_of(name2) by {
                if exists|k: int| 0 <= k < self.entries().len() && (#[trigger] self.entries()[k]).0@ == name2 {
                    let k = choose|k: int| 0 <= k < self.entries().len() && (#[trigger] self.entries()[k]).0@ == name2;
                    self.lemma_record_at(k);
                    old(self).lemma_record_at(k);
                } else {
                    assert forall|k: int| 0 <= k < old(self).entries().len() implies (#[trigger] old(self).entries()[k]).0@ != name2 by {
                        assert(self.entries()[k].0@ != name2);
                    }
                }
            }
        }
    }

    /// The record of `player`'s name, if any.
    pub fn get_stats(&self, player: &Player) -> (r: Option<&PlayerStats>)
        requires
            self.wf(),
        ensures
            r.is_some() == self.record_of(player.spec_name()@).is_some(),
            r matches Some(s) ==> self.record_of(player.spec_name()@) == Some(s.counts()),
    {
        let name_of_player: String = player.name().to_owned();
        let mut i: usize = 0;
        while i < self.stats.len()
            invariant
                self.wf(),
                name_of_player@ == player.spec_name()@,
                i <= self.stats@.len(),
                forall|k: int| 0 <= k < i ==> (#[trigger] self.stats@[k]).0@ != player.spec_name()@,
            decreases self.stats@.len() - i,
        {
            if self.stats[i].0 == name_of_player {
                proof {
                    self.lemma_record_at(i as int);
                }
                return Some(&self.stats[i].1);
            }
            i += 1;
        }
        None
    }
}

} // verus!
