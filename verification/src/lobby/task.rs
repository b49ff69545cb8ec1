//! Join and leave: the steps of the lobby's message loop that change who is
//! seated. The loop itself — receiving messages and performing deliveries —
//! belongs to the application.

use crate::client::ClientProfile;
use crate::lobby::broadcaster::{is_broadcast, is_broadcast_except, LobbyBroadcaster};
use crate::lobby::game_state::EntryV;
use crate::lobby::lobby::{host_count, in_game_count, lives_bounded, lobby_wf, seated, Lobby, LobbyV};
use crate::messages::{Effect, ServerToClient};
use vstd::prelude::*;

verus! {

/// Seat a joining client, or refuse it: a full lobby and a started game both
/// reject the join, and a client cannot sit down twice. On success the
/// joiner gets its id with the whole lobby record, and everyone else learns
/// of the new player.
pub fn handle_client_join(
    lobby: &mut Lobby,
    broadcaster: &mut LobbyBroadcaster,
    client_id: String,
    client_profile: ClientProfile,
) -> (effects: Vec<Effect>)
    requires
        lobby_wf(old(lobby)@),
        old(broadcaster).wf(),
    ensures
        lobby_wf(final(lobby)@),
        final(broadcaster).wf(),
        lives_bounded(old(lobby)@) ==> lives_bounded(final(lobby)@),
        final(lobby)@.code == old(lobby)@.code,
        final(lobby)@.max_players == old(lobby)@.max_players,
        old(lobby)@.players.len() >= old(lobby)@.max_players ==> final(lobby)@ == old(lobby)@
            && *final(broadcaster) == *old(broadcaster) && effects@.len() == 1 && (effects@[0]
            matches Effect::Send { to, msg } && to@.len() == 1 && to@[0]@ == client_id@ && (msg
            matches ServerToClient::Error { message } && message@ =~= "Lobby is full"@)),
        (old(lobby)@.players.len() < old(lobby)@.max_players && old(lobby)@.started) ==> final(lobby)@ == old(lobby)@ && *final(broadcaster) == *old(broadcaster) && effects@.len() == 1 && (
        effects@[0] matches Effect::Send { to, msg } && to@.len() == 1 && to@[0]@ == client_id@ && (
        msg matches ServerToClient::Error { message } && message@ =~= "Lobby is already started"@)),
        (old(lobby)@.players.len() < old(lobby)@.max_players && !old(lobby)@.started && seated(
            old(lobby)@.players,
            client_id@,
        )) ==> final(lobby)@ == old(lobby)@ && *final(broadcaster) == *old(broadcaster)
            && effects@.len() == 1 && (effects@[0] matches Effect::Send { to, msg } && to@.len()
            == 1 && to@[0]@ == client_id@ && (msg matches ServerToClient::Error { .. })),
        (old(lobby)@.players.len() < old(lobby)@.max_players && !old(lobby)@.started && !seated(
            old(lobby)@.players,
            client_id@,
        )) ==> {
            &&& final(lobby)@.players.len() == old(lobby)@.players.len() + 1
            &&& final(lobby)@.players.take(old(lobby)@.players.len() as int) == old(lobby)@.players
            &&& {
                let e = final(lobby)@.players.last().1;
                &&& final(lobby)@.players.last().0 == client_id@
                &&& final(lobby)@ == (LobbyV {
                    players: final(lobby)@.players,
                    ..old(lobby)@
                })
                &&& e.profile == client_profile@
                &&& e.lobby_state.is_host == (old(lobby)@.players.len() == 0)
                &&& e.lobby_state.is_ready == (old(lobby)@.players.len() == 0)
                &&& e.game_state.lives == old(lobby)@.lobby_options.starting_lives
            }
            &&& (forall|x: Seq<char>|
                #[trigger] final(broadcaster).view_members().contains(x) <==> (old(broadcaster).view_members().contains(x) || x == client_id@))
            &&& effects@.len() == 2
            &&& (effects@[0] matches Effect::Send { to, msg } && to@.len() == 1 && to@[0]@
                == client_id@ && (msg matches ServerToClient::JoinedLobby { player_id, lobby_data }
                && player_id@ == client_id@ && lobby_data@ == final(lobby)@))
            &&& is_broadcast_except(effects@[1], final(broadcaster).view_members(), client_id@)
            &&& (effects@[1]->Send_msg matches ServerToClient::PlayerJoinedLobby { player }
                && player@ == final(lobby)@.players.last().1)
        },
{
    let mut effects: Vec<Effect> = Vec::new();
    if lobby.is_full() {
        let mut to: Vec<String> = Vec::new();
        to.push(client_id);
        effects.push(
            Effect::Send {
                to,
                msg: ServerToClient::Error { message: String::from_str("Lobby is full") },
            },
        );
        proof {
            reveal_strlit("Lobby is full");
        }
        return effects;
    }
    if lobby.started {
        let mut to: Vec<String> = Vec::new();
        to.push(client_id);
        effects.push(
            Effect::Send {
                to,
                msg: ServerToClient::Error {
                    message: String::from_str("Lobby is already started"),
                },
            },
        );
        proof {
            reveal_strlit("Lobby is already started");
        }
        return effects;
    }
    match lobby.find_player(client_id.as_str()) {
        Some(_) => {
            let mut to: Vec<String> = Vec::new();
            to.push(client_id);
            effects.push(
                Effect::Send {
                    to,
                    msg: ServerToClient::Error { message: String::from_str("Already in lobby") },
                },
            );
            effects
        },
        None => {
            let entry = lobby.add_player(client_id.clone(), client_profile);
            broadcaster.add_player(client_id.clone());
            let snapshot = lobby.snapshot();
            let mut to: Vec<String> = Vec::new();
            to.push(client_id.clone());
            effects.push(
                Effect::Send {
                    to,
                    msg: ServerToClient::JoinedLobby {
                        player_id: client_id.clone(),
                        lobby_data: snapshot,
                    },
                },
            );
            effects.push(
                broadcaster.broadcast_except(
                    client_id.as_str(),
                    ServerToClient::PlayerJoinedLobby { player: entry },
                ),
            );
            effects
        },
    }
}

/// Unseat a leaving client. The last one out shuts the lobby down; a leaving
/// host hands the flag to the first remaining player; a running game with
/// fewer than two players left in it stops.
pub fn handle_client_leave(
    lobby: &mut Lobby,
    broadcaster: &mut LobbyBroadcaster,
    client_id: String,
) -> (r: (bool, Vec<Effect>))
    requires
        lobby_wf(old(lobby)@),
        old(broadcaster).wf(),
    ensures
        lobby_wf(final(lobby)@),
        final(broadcaster).wf(),
        lives_bounded(old(lobby)@) ==> lives_bounded(final(lobby)@),
        final(lobby)@.code == old(lobby)@.code,
        final(lobby)@.max_players == old(lobby)@.max_players,
        !seated(old(lobby)@.players, client_id@) ==> final(lobby)@ == old(lobby)@ && !r.0
            && r.1@.len() == 0,
        seated(old(lobby)@.players, client_id@) ==> !seated(final(lobby)@.players, client_id@),
        r.0 <==> (seated(old(lobby)@.players, client_id@) && old(lobby)@.players.len() == 1),
        r.0 ==> final(lobby)@.players.len() == 0 && r.1@.len() == 1 && (r.1@[0]
            matches Effect::Shutdown { lobby_code } && lobby_code@ == old(lobby)@.code),
        (seated(old(lobby)@.players, client_id@) && old(lobby)@.players.len() > 1) ==> final(lobby)@.players.len() == old(lobby)@.players.len() - 1 && host_count(final(lobby)@.players)
            == 1,
        forall|x: Seq<char>|
            #[trigger] final(broadcaster).view_members().contains(x) <==> (old(broadcaster).view_members().contains(x) && x != client_id@),
        (seated(old(lobby)@.players, client_id@) && old(lobby)@.players.len() > 1) ==> {
            &&& 1 <= r.1@.len() <= 2
            &&& is_broadcast(r.1@[0], final(broadcaster).view_members())
            &&& (r.1@[0]->Send_msg matches ServerToClient::PlayerLeftLobby { player_id, host_id }
                && player_id@ == client_id@ && (exists|i: int|
                0 <= i < final(lobby)@.players.len() && (#[trigger] final(lobby)@.players[i]).0
                    == host_id@ && final(lobby)@.players[i].1.lobby_state.is_host))
            &&& (r.1@.len() == 2 ==> {
                &&& old(lobby)@.started
                &&& is_broadcast(r.1@[1], final(broadcaster).view_members())
                &&& (r.1@[1]->Send_msg matches ServerToClient::GameStopped { .. })
                &&& !final(lobby)@.started
                &&& final(lobby)@.stage == 0
                &&& forall|k: int|
                    0 <= k < final(lobby)@.players.len() ==> !(
                    #[trigger] final(lobby)@.players[k]).1.lobby_state.in_game && final(lobby)@.players[k].1.game_state.lives
                        == old(lobby)@.lobby_options.starting_lives
            })
            &&& (r.1@.len() == 1 ==> final(lobby)@.started == old(lobby)@.started
                && in_game_count(final(lobby)@.players) == alive_after_leave(
                old(lobby)@,
                client_id@,
            ))
            &&& (r.1@.len() == 2 <==> (old(lobby)@.started && alive_after_leave(
                old(lobby)@,
                client_id@,
            ) < 2))
        },
{
    broadcaster.remove_player(client_id.as_str());
    let removed = lobby.remove_player(client_id.as_str());
    let mut effects: Vec<Effect> = Vec::new();
    match removed {
        None => {
            proof {
                if seated(old(lobby)@.players, client_id@) {
                    let i = choose|i: int|
                        0 <= i < old(lobby)@.players.len() && (#[trigger] old(lobby)@.players[i]).0 == client_id@;
                }
            }
            (false, effects)
        },
        Some(entry) => {
            if lobby.player_count() == 0 {
                effects.push(Effect::Shutdown { lobby_code: lobby.code.clone() });
                return (true, effects);
            }
            let host_id: String = if entry.lobby_state.is_host {
                match lobby.promote_new_host() {
                    Some(id) => {
                        proof {
                            assert(lobby@.players[0].0 == id@ && lobby@.players[
                                0
                            ].1.lobby_state.is_host);
                            assert(exists|i: int|
                                0 <= i < lobby@.players.len() && (#[trigger] lobby@.players[i]).0
                                    == id@ && lobby@.players[i].1.lobby_state.is_host);
                        }
                        id
                    },
                    None => {
                        proof {
                            assert(false);
                        }
                        client_id.clone()
                    },
                }
            } else {
                match lobby.current_host_id() {
                    Some(id) => id,
                    None => {
                        proof {
                            lemma_host_witness(lobby@.players);
                            assert(false);
                        }
                        client_id.clone()
                    },
                }
            };
            effects.push(
                broadcaster.broadcast(
                    ServerToClient::PlayerLeftLobby {
                        player_id: client_id.clone(),
                        host_id,
                    },
                ),
            );
            proof {
                let i = choose|i: int|
                    0 <= i < old(lobby)@.players.len() && #[trigger] old(lobby)@.players[i] == (
                    client_id@,
                    entry@,
                    );
                crate::lobby::lobby::lemma_seat_index(old(lobby)@.players, i);
                assert(in_game_count(lobby@.players) == alive_after_leave(
                    old(lobby)@,
                    client_id@,
                )) by {
                    lemma_in_game_pointwise(
                        lobby@.players,
                        old(lobby)@.players.remove(
                            crate::lobby::lobby::seat_index(old(lobby)@.players, client_id@),
                        ),
                    );
                }
            }
            let ghost mid2 = lobby@;
            proof {
                assert(exists|i: int|
                    0 <= i < mid2.players.len() && (#[trigger] mid2.players[i]).0 == host_id@
                        && mid2.players[i].1.lobby_state.is_host);
            }
            if lobby.started && lobby.get_player_count_in_game() < 2 {
                lobby.stop_game();
                effects.push(broadcaster.broadcast(ServerToClient::GameStopped {}));
            }
            proof {
                if seated(lobby@.players, client_id@) {
                    let i = choose|i: int|
                        0 <= i < lobby@.players.len() && (#[trigger] lobby@.players[i]).0
                            == client_id@;
                }
                assert(exists|i: int|
                    0 <= i < lobby@.players.len() && (#[trigger] lobby@.players[i]).0
                        == host_id@ && lobby@.players[i].1.lobby_state.is_host) by {
                    let i = choose|i: int|
                        0 <= i < mid2.players.len() && (#[trigger] mid2.players[i]).0 == host_id@
                            && mid2.players[i].1.lobby_state.is_host;
                    assert(lobby@.players[i].0 == host_id@ && lobby@.players[
                        i
                    ].1.lobby_state.is_host);
                }
            }
            (false, effects)
        },
    }
}

/// How many seats would still be in the game once the named player is gone:
/// the in-game count of the seat list with that player's seat removed.
pub open spec fn alive_after_leave(l: LobbyV, gone: Seq<char>) -> int {
    in_game_count(l.players.remove(crate::lobby::lobby::seat_index(l.players, gone)))
}

/// Seat lists that agree pointwise on the in-game flag count the same.
proof fn lemma_in_game_pointwise(
    s1: Seq<(Seq<char>, crate::lobby::game_state::EntryV)>,
    s2: Seq<(Seq<char>, crate::lobby::game_state::EntryV)>,
)
    requires
        s1.len() == s2.len(),
        forall|i: int|
            0 <= i < s1.len() ==> (#[trigger] s1[i]).1.lobby_state.in_game
                == (#[trigger] s2[i]).1.lobby_state.in_game,
    ensures
        in_game_count(s1) == in_game_count(s2),
    decreases s1.len(),
{
    if s1.len() > 0 {
        lemma_in_game_pointwise(s1.drop_last(), s2.drop_last());
        assert(s1[s1.len() - 1].1.lobby_state.in_game == s2[s2.len()
            - 1].1.lobby_state.in_game);
    }
}

/// A seat list with exactly one host has a host to point at.
proof fn lemma_host_witness(ps: Seq<(Seq<char>, crate::lobby::game_state::EntryV)>)
    requires
        host_count(ps) >= 1,
    ensures
        exists|i: int| 0 <= i < ps.len() && (#[trigger] ps[i]).1.lobby_state.is_host,
    decreases ps.len(),
{
    if ps.len() > 0 {
        if ps.last().1.lobby_state.is_host {
            assert(ps[ps.len() - 1].1.lobby_state.is_host);
        } else {
            crate::lobby::lobby::lemma_host_count_nonneg(ps.drop_last());
            lemma_host_witness(ps.drop_last());
            let i = choose|i: int|
                0 <= i < ps.drop_last().len() && (#[trigger] ps.drop_last()[i]).1.lobby_state
                    .is_host;
            assert(ps[i].1.lobby_state.is_host);
        }
    }
}

} // verus!
