//! Recipient bookkeeping for a lobby's fanout. The broadcaster knows which
//! player ids have an outbound channel; each primitive names the exact
//! recipients of one message, and the application delivers. One filtered
//! primitive underlies unicast, broadcast, broadcast-except and
//! broadcast-to-set.

use crate::messages::{Effect, ServerToClient};
use vstd::prelude::*;

verus! {

/// The ids a lobby can currently deliver to.
#[derive(Debug)]
pub struct LobbyBroadcaster {
    pub members: Vec<String>,
}

/// A sequence of id strings, viewed.
pub open spec fn ids_view(s: Seq<String>) -> Seq<Seq<char>> {
    s.map_values(|x: String| x@)
}

/// No id occurs twice.
pub open spec fn ids_unique(s: Seq<Seq<char>>) -> bool {
    forall|i: int, j: int| 0 <= i < j < s.len() ==> s[i] != s[j]
}

impl LobbyBroadcaster {
    /// The registered ids, viewed.
    pub open spec fn view_members(&self) -> Seq<Seq<char>> {
        ids_view(self.members@)
    }

    /// Membership is duplicate-free.
    pub open spec fn wf(&self) -> bool {
        ids_unique(self.view_members())
    }

    /// An empty broadcaster.
    pub fn new() -> (r: LobbyBroadcaster)
        ensures
            r.wf(),
            r.view_members() =~= Seq::<Seq<char>>::empty(),
    {
        let r = LobbyBroadcaster { members: Vec::new() };
        proof {
            assert(r.view_members() =~= Seq::<Seq<char>>::empty());
        }
        r
    }

    /// Whether an id is registered.
    pub fn is_member(&self, id: &str) -> (r: bool)
        ensures
            r == self.view_members().contains(id@),
    {
        let mut i: usize = 0;
        while i < self.members.len()
            invariant
                i <= self.members@.len(),
                forall|j: int| 0 <= j < i ==> ids_view(self.members@)[j] != id@,
            decreases self.members@.len() - i,
        {
            if crate::talisman_number::str_eq_literal(self.members[i].as_str(), id) {
                proof {
                    assert(self.view_members()[i as int] == id@);
                }
                return true;
            }
            i = i + 1;
        }
        proof {
            if self.view_members().contains(id@) {
                let k = choose|k: int|
                    0 <= k < self.view_members().len() && self.view_members()[k] == id@;
            }
        }
        false
    }

    /// Register a player's channel. A second registration of the same id
    /// replaces the old channel, so membership gains the id at most once.
    pub fn add_player(&mut self, player_id: String)
        requires
            old(self).wf(),
        ensures
            final(self).wf(),
            final(self).view_members().contains(player_id@),
            forall|x: Seq<char>|
                #[trigger] final(self).view_members().contains(x) <==> (old(
                    self,
                ).view_members().contains(x) || x == player_id@),
    {
        if !self.is_member(player_id.as_str()) {
            let ghost before = self.view_members();
            self.members.push(player_id);
            proof {
                assert(self.view_members() =~= before.push(player_id@));
                assert forall|x: Seq<char>| #[trigger]
                    self.view_members().contains(x) <==> (before.contains(x) || x
                        == player_id@) by {
                    if self.view_members().contains(x) {
                        let k = choose|k: int|
                            0 <= k < self.view_members().len() && self.view_members()[k] == x;
                        if k < before.len() {
                            assert(before[k] == x);
                        }
                    }
                    if before.contains(x) {
                        let k = choose|k: int| 0 <= k < before.len() && before[k] == x;
                        assert(self.view_members()[k] == x);
                    }
                    if x == player_id@ {
                        assert(self.view_members()[before.len() as int] == x);
                    }
                }
            }
        }
    }

    /// Drop a player's channel.
    pub fn remove_player(&mut self, player_id: &str)
        requires
            old(self).wf(),
        ensures
            final(self).wf(),
            forall|x: Seq<char>|
                #[trigger] final(self).view_members().contains(x) <==> (old(
                    self,
                ).view_members().contains(x) && x != player_id@),
    {
        let mut kept: Vec<String> = Vec::new();
        let mut i: usize = 0;
        while i < self.members.len()
            invariant
                i <= self.members@.len(),
                old(self).wf(),
                self.members@ == old(self).members@,
                ids_view(kept@) =~= remove_one(ids_view(self.members@).take(i as int), player_id@),
            decreases self.members@.len() - i,
        {
            proof {
                assert(ids_view(self.members@).take(i as int + 1).drop_last() =~= ids_view(
                    self.members@,
                ).take(i as int));
                assert(ids_view(self.members@).take(i as int + 1).last() == ids_view(
                    self.members@,
                )[i as int]);
            }
            if !crate::talisman_number::str_eq_literal(self.members[i].as_str(), player_id) {
                let ghost kv = ids_view(kept@);
                let copied = self.members[i].clone();
                kept.push(copied);
                proof {
                    assert(ids_view(kept@) =~= kv.push(ids_view(self.members@)[i as int]));
                }
            }
            i = i + 1;
        }
        proof {
            assert(ids_view(self.members@).take(i as int) =~= ids_view(self.members@));
        }
        self.members = kept;
        proof {
            lemma_remove_one(ids_view(old(self).members@), player_id@);
        }
    }

    /// One message to one player, if registered.
    pub fn send_to(&self, player_id: &str, response: ServerToClient) -> (e: Effect)
        requires
            self.wf(),
        ensures
            e matches Effect::Send { to, msg } && msg == response && ids_unique(ids_view(to@)) && (
            forall|x: Seq<char>|
                #[trigger] ids_view(to@).contains(x) <==> (self.view_members().contains(x) && x
                    == player_id@)),
    {
        let mut to: Vec<String> = Vec::new();
        if self.is_member(player_id) {
            to.push(player_id.to_owned());
            proof {
                assert(ids_view(to@) =~= seq![player_id@]);
                assert(ids_view(to@)[0] == player_id@);
            }
        } else {
            proof {
                assert(ids_view(to@) =~= Seq::<Seq<char>>::empty());
            }
        }
        Effect::Send { to, msg: response }
    }

    /// One message to every player the predicate admits. The filter is a
    /// concrete exclusion list: recipients are the members not named in it.
    pub fn broadcast_excluding(&self, excluded: &Vec<String>, response: ServerToClient) -> (e:
        Effect)
        requires
            self.wf(),
        ensures
            e matches Effect::Send { to, msg } && msg == response && ids_unique(ids_view(to@)) && (
            forall|x: Seq<char>|
                #[trigger] ids_view(to@).contains(x) <==> (self.view_members().contains(x)
                    && !ids_view(excluded@).contains(x))),
    {
        let mut to: Vec<String> = Vec::new();
        let mut i: usize = 0;
        while i < self.members.len()
            invariant
                i <= self.members@.len(),
                self.wf(),
                ids_view(to@) =~= keep_excluding(
                    ids_view(self.members@).take(i as int),
                    ids_view(excluded@),
                ),
            decreases self.members@.len() - i,
        {
            proof {
                assert(ids_view(self.members@).take(i as int + 1).drop_last() =~= ids_view(
                    self.members@,
                ).take(i as int));
                assert(ids_view(self.members@).take(i as int + 1).last() == ids_view(
                    self.members@,
                )[i as int]);
            }
            let mut named = false;
            let mut j: usize = 0;
            while j < excluded.len()
                invariant
                    j <= excluded@.len(),
                    i < self.members@.len(),
                    named == exists|k: int|
                        0 <= k < j && ids_view(excluded@)[k] == ids_view(self.members@)[i as int],
                decreases excluded@.len() - j,
            {
                if crate::talisman_number::str_eq_literal(
                    excluded[j].as_str(),
                    self.members[i].as_str(),
                ) {
                    proof {
                        assert(ids_view(excluded@)[j as int] == ids_view(
                            self.members@,
                        )[i as int]);
                    }
                    named = true;
                }
                j = j + 1;
            }
            proof {
                if named {
                    let k = choose|k: int|
                        0 <= k < excluded@.len() && ids_view(excluded@)[k] == ids_view(
                            self.members@,
                        )[i as int];
                    assert(ids_view(excluded@).contains(ids_view(self.members@)[i as int]));
                }
                if ids_view(excluded@).contains(ids_view(self.members@)[i as int]) {
                    let k = choose|k: int|
                        0 <= k < ids_view(excluded@).len() && ids_view(excluded@)[k] == ids_view(
                            self.members@,
                        )[i as int];
                }
            }
            if !named {
                let ghost tv = ids_view(to@);
                let copied = self.members[i].clone();
                to.push(copied);
                proof {
                    assert(ids_view(to@) =~= tv.push(ids_view(self.members@)[i as int]));
                }
            }
            i = i + 1;
        }
        proof {
            assert(ids_view(self.members@).take(i as int) =~= ids_view(self.members@));
            lemma_keep_excluding(ids_view(self.members@), ids_view(excluded@));
        }
        Effect::Send { to, msg: response }
    }

    /// One message to every registered player.
    pub fn broadcast(&self, response: ServerToClient) -> (e: Effect)
        requires
            self.wf(),
        ensures
            e matches Effect::Send { to, msg } && msg == response && ids_unique(ids_view(to@)) && (
            forall|x: Seq<char>|
                #[trigger] ids_view(to@).contains(x) <==> self.view_members().contains(x)),
    {
        let none: Vec<String> = Vec::new();
        let e = self.broadcast_excluding(&none, response);
        proof {
            assert(ids_view(none@) =~= Seq::<Seq<char>>::empty());
        }
        e
    }

    /// One message to everyone but the named player.
    pub fn broadcast_except(&self, except: &str, response: ServerToClient) -> (e: Effect)
        requires
            self.wf(),
        ensures
            e matches Effect::Send { to, msg } && msg == response && ids_unique(ids_view(to@)) && (
            forall|x: Seq<char>|
                #[trigger] ids_view(to@).contains(x) <==> (self.view_members().contains(x) && x
                    != except@)),
    {
        let mut one: Vec<String> = Vec::new();
        one.push(except.to_owned());
        let e = self.broadcast_excluding(&one, response);
        proof {
            assert(ids_view(one@) =~= seq![except@]);
            assert(forall|x: Seq<char>|
                #[trigger] ids_view(one@).contains(x) <==> x == except@) by {
                assert(ids_view(one@)[0] == except@);
            }
        }
        e
    }
}

/// Whether an effect delivers one message to exactly the named id (when
/// registered).
pub open spec fn is_unicast(e: Effect, members: Seq<Seq<char>>, id: Seq<char>) -> bool {
    &&& e is Send
    &&& ids_unique(ids_view(e->Send_to@))
    &&& forall|x: Seq<char>|
        #[trigger] ids_view(e->Send_to@).contains(x) <==> (members.contains(x) && x == id)
}

/// Whether an effect delivers one message to every registered id.
pub open spec fn is_broadcast(e: Effect, members: Seq<Seq<char>>) -> bool {
    &&& e is Send
    &&& ids_unique(ids_view(e->Send_to@))
    &&& forall|x: Seq<char>| #[trigger] ids_view(e->Send_to@).contains(x) <==> members.contains(x)
}

/// Whether an effect delivers one message to every registered id but one.
pub open spec fn is_broadcast_except(e: Effect, members: Seq<Seq<char>>, except: Seq<char>) -> bool {
    &&& e is Send
    &&& ids_unique(ids_view(e->Send_to@))
    &&& forall|x: Seq<char>|
        #[trigger] ids_view(e->Send_to@).contains(x) <==> (members.contains(x) && x != except)
}

/// The ids of a sequence with one id struck out, order kept.
pub open spec fn remove_one(s: Seq<Seq<char>>, gone: Seq<char>) -> Seq<Seq<char>>
    decreases s.len(),
{
    if s.len() == 0 {
        s
    } else if s.last() == gone {
        remove_one(s.drop_last(), gone)
    } else {
        remove_one(s.drop_last(), gone).push(s.last())
    }
}

/// Striking an id out keeps exactly the others, without duplicates.
pub proof fn lemma_remove_one(s: Seq<Seq<char>>, gone: Seq<char>)
    requires
        ids_unique(s),
    ensures
        ids_unique(remove_one(s, gone)),
        forall|x: Seq<char>|
            #[trigger] remove_one(s, gone).contains(x) <==> (s.contains(x) && x != gone),
    decreases s.len(),
{
    if s.len() == 0 {
    } else {
        lemma_remove_one(s.drop_last(), gone);
        let r = remove_one(s, gone);
        let rd = remove_one(s.drop_last(), gone);
        assert forall|x: Seq<char>| #[trigger] r.contains(x) implies (s.contains(x) && x
            != gone) by {
            if s.last() != gone && r == rd.push(s.last()) {
                let k = choose|k: int| 0 <= k < r.len() && r[k] == x;
                if k < rd.len() {
                    assert(rd.contains(x));
                    let j = choose|j: int| 0 <= j < s.drop_last().len() && s.drop_last()[j] == x;
                    assert(s[j] == x);
                } else {
                    assert(x == s.last());
                    assert(s[s.len() - 1] == x);
                }
            } else {
                let j = choose|j: int| 0 <= j < s.drop_last().len() && s.drop_last()[j] == x;
                assert(s[j] == x);
            }
        }
        assert forall|x: Seq<char>| s.contains(x) && x != gone implies #[trigger] r.contains(
            x,
        ) by {
            let k = choose|k: int| 0 <= k < s.len() && s[k] == x;
            if k < s.len() - 1 {
                assert(s.drop_last()[k] == x);
                assert(rd.contains(x));
                if s.last() != gone {
                    let j = choose|j: int| 0 <= j < rd.len() && rd[j] == x;
                    assert(r[j] == x);
                }
            } else {
                assert(s.last() == x);
                assert(r[r.len() - 1] == x);
            }
        }
        if s.last() != gone {
            assert forall|i: int, j: int| 0 <= i < j < r.len() implies r[i] != r[j] by {
                if j == r.len() - 1 {
                    assert(r[i] == rd[i]);
                    assert(rd.contains(rd[i]));
                    assert(s.drop_last().contains(r[i]) && r[i] != gone);
                    let k = choose|k: int|
                        0 <= k < s.drop_last().len() && s.drop_last()[k] == r[i];
                    assert(s[k] == r[i]);
                    assert(s[s.len() - 1] == s.last());
                }
            }
        }
    }
}

/// The ids of a sequence that an exclusion list does not name, order kept.
pub open spec fn keep_excluding(s: Seq<Seq<char>>, excluded: Seq<Seq<char>>) -> Seq<Seq<char>>
    decreases s.len(),
{
    if s.len() == 0 {
        s
    } else if excluded.contains(s.last()) {
        keep_excluding(s.drop_last(), excluded)
    } else {
        keep_excluding(s.drop_last(), excluded).push(s.last())
    }
}

/// Keeping the unnamed ids keeps exactly those, without duplicates.
pub proof fn lemma_keep_excluding(s: Seq<Seq<char>>, excluded: Seq<Seq<char>>)
    requires
        ids_unique(s),
    ensures
        ids_unique(keep_excluding(s, excluded)),
        forall|x: Seq<char>|
            #[trigger] keep_excluding(s, excluded).contains(x) <==> (s.contains(x)
                && !excluded.contains(x)),
    decreases s.len(),
{
    if s.len() == 0 {
    } else {
        lemma_keep_excluding(s.drop_last(), excluded);
        let r = keep_excluding(s, excluded);
        let rd = keep_excluding(s.drop_last(), excluded);
        assert forall|x: Seq<char>| #[trigger] r.contains(x) implies (s.contains(x)
            && !excluded.contains(x)) by {
            if !excluded.contains(s.last()) && r == rd.push(s.last()) {
                let k = choose|k: int| 0 <= k < r.len() && r[k] == x;
                if k < rd.len() {
                    assert(rd.contains(x));
                    let j = choose|j: int| 0 <= j < s.drop_last().len() && s.drop_last()[j] == x;
                    assert(s[j] == x);
                } else {
                    assert(x == s.last());
                    assert(s[s.len() - 1] == x);
                }
            } else {
                let j = choose|j: int| 0 <= j < s.drop_last().len() && s.drop_last()[j] == x;
                assert(s[j] == x);
            }
        }
        assert forall|x: Seq<char>| s.contains(x) && !excluded.contains(x) implies #[trigger] r
            .contains(x) by {
            let k = choose|k: int| 0 <= k < s.len() && s[k] == x;
            if k < s.len() - 1 {
                assert(s.drop_last()[k] == x);
                assert(rd.contains(x));
                if !excluded.contains(s.last()) {
                    let j = choose|j: int| 0 <= j < rd.len() && rd[j] == x;
                    assert(r[j] == x);
                }
            } else {
                assert(s.last() == x);
                assert(r[r.len() - 1] == x);
            }
        }
        if !excluded.contains(s.last()) {
            assert forall|i: int, j: int| 0 <= i < j < r.len() implies r[i] != r[j] by {
                if j == r.len() - 1 {
                    assert(r[i] == rd[i]);
                    assert(rd.contains(rd[i]));
                    assert(s.drop_last().contains(r[i]) && !excluded.contains(r[i]));
                    let k = choose|k: int|
                        0 <= k < s.drop_last().len() && s.drop_last()[k] == r[i];
                    assert(s[k] == r[i]);
                    assert(s[s.len() - 1] == s.last());
                }
            }
        }
    }
}

} // verus!
