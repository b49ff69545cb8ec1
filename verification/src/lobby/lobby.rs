//! The lobby record and its state machine: membership, host election, the
//! ready handshake, round adjudication and the per-mode game-over rules.

use crate::client::ClientProfile;
use crate::decnum::DecNum;
use crate::game_mode::{GameMode, LobbyOptions, LobbyOptionsV, CLASH_BASE_DAMAGE};
use crate::lobby::game_state::{
    spec_default_game_state, ClientLobbyEntry, EntryV, GameStateV, LobbyStateV,
};
use crate::decnum::Ord3;
use crate::lobby::broadcaster::{is_broadcast, is_unicast, LobbyBroadcaster};
use crate::messages::{Effect, ServerToClient};
use crate::talisman_number::{score_eqv, score_lt, spec_score_add, tn_wf, TalismanNumber, TnView};
use vstd::prelude::*;

verus! {

/// One lobby: its code, whether a game runs, the Clash stage, the boss
/// target, the options, and the seated players in join order.
#[derive(Debug)]
pub struct Lobby {
    pub code: String,
    pub started: bool,
    pub boss_chips: TalismanNumber,
    pub lobby_options: LobbyOptions,
    pub stage: i32,
    pub players: Vec<(String, ClientLobbyEntry)>,
    pub max_players: u8,
}

/// The spec-level image of a lobby.
pub struct LobbyV {
    pub code: Seq<char>,
    pub started: bool,
    pub boss_chips: TnView,
    pub lobby_options: LobbyOptionsV,
    pub stage: i32,
    pub players: Seq<(Seq<char>, EntryV)>,
    pub max_players: u8,
}

impl View for Lobby {
    type V = LobbyV;

    open spec fn view(&self) -> LobbyV {
        LobbyV {
            code: self.code@,
            started: self.started,
            boss_chips: self.boss_chips@,
            lobby_options: self.lobby_options@,
            stage: self.stage,
            players: self.players@.map_values(|p: (String, ClientLobbyEntry)| (p.0@, p.1@)),
            max_players: self.max_players,
        }
    }
}

/// How many seated players hold the host flag.
pub open spec fn host_count(players: Seq<(Seq<char>, EntryV)>) -> int
    decreases players.len(),
{
    if players.len() == 0 {
        0
    } else {
        host_count(players.drop_last()) + if players.last().1.lobby_state.is_host {
            1int
        } else {
            0int
        }
    }
}

/// No player id is seated twice.
pub open spec fn players_unique(players: Seq<(Seq<char>, EntryV)>) -> bool {
    forall|i: int, j: int| 0 <= i < j < players.len() ==> players[i].0 != players[j].0
}

/// The lobby's standing invariant: never more players than the cap, each id
/// seated once, exactly one host while anyone is seated, and well-formed
/// scores everywhere.
pub open spec fn lobby_wf(l: LobbyV) -> bool {
    &&& l.players.len() <= l.max_players
    &&& players_unique(l.players)
    &&& host_count(l.players) == if l.players.len() == 0 {
        0int
    } else {
        1int
    }
    &&& tn_wf(l.boss_chips)
    &&& forall|i: int|
        0 <= i < l.players.len() ==> crate::lobby::game_state::game_state_wf(
            (#[trigger] l.players[i]).1.game_state,
        )
    &&& 0 <= l.stage
}

/// Appending a seat adds its host flag to the count.
pub proof fn lemma_host_count_push(s: Seq<(Seq<char>, EntryV)>, e: (Seq<char>, EntryV))
    ensures
        host_count(s.push(e)) == host_count(s) + if e.1.lobby_state.is_host {
            1int
        } else {
            0int
        },
{
    assert(s.push(e).drop_last() =~= s);
}

/// Removing a seat subtracts its host flag from the count.
pub proof fn lemma_host_count_remove(s: Seq<(Seq<char>, EntryV)>, i: int)
    requires
        0 <= i < s.len(),
    ensures
        host_count(s.remove(i)) == host_count(s) - if s[i].1.lobby_state.is_host {
            1int
        } else {
            0int
        },
    decreases s.len(),
{
    if i == s.len() - 1 {
        assert(s.remove(i) =~= s.drop_last());
    } else {
        lemma_host_count_remove(s.drop_last(), i);
        assert(s.remove(i).drop_last() =~= s.drop_last().remove(i));
        assert(s.remove(i).last() == s.last());
    }
}

/// Replacing a seat swaps its host flag in the count.
pub proof fn lemma_host_count_update(s: Seq<(Seq<char>, EntryV)>, i: int, e: (Seq<char>, EntryV))
    requires
        0 <= i < s.len(),
    ensures
        host_count(s.update(i, e)) == host_count(s) - (if s[i].1.lobby_state.is_host {
            1int
        } else {
            0int
        }) + (if e.1.lobby_state.is_host {
            1int
        } else {
            0int
        }),
    decreases s.len(),
{
    if i == s.len() - 1 {
        assert(s.update(i, e).drop_last() =~= s.drop_last());
        assert(s.update(i, e).last() == e);
    } else {
        lemma_host_count_update(s.drop_last(), i, e);
        assert(s.update(i, e).drop_last() =~= s.drop_last().update(i, e));
        assert(s.update(i, e).last() == s.last());
    }
}

/// A seated host makes the count positive, and the count is never negative.
pub proof fn lemma_host_count_at(s: Seq<(Seq<char>, EntryV)>, i: int)
    requires
        0 <= i < s.len(),
    ensures
        host_count(s) >= 0,
        s[i].1.lobby_state.is_host ==> host_count(s) >= 1,
    decreases s.len(),
{
    lemma_host_count_nonneg(s);
    if i == s.len() - 1 {
        lemma_host_count_nonneg(s.drop_last());
    } else {
        lemma_host_count_at(s.drop_last(), i);
        assert(s.drop_last()[i] == s[i]);
    }
}

/// The host count is never negative.
pub proof fn lemma_host_count_nonneg(s: Seq<(Seq<char>, EntryV)>)
    ensures
        host_count(s) >= 0,
    decreases s.len(),
{
    if s.len() > 0 {
        lemma_host_count_nonneg(s.drop_last());
    }
}

/// Removing a seat keeps the rest unique.
pub proof fn lemma_players_remove(s: Seq<(Seq<char>, EntryV)>, i: int)
    requires
        0 <= i < s.len(),
        players_unique(s),
    ensures
        players_unique(s.remove(i)),
{
    assert forall|a: int, b: int| 0 <= a < b < s.remove(i).len() implies s.remove(i)[a].0
        != s.remove(i)[b].0 by {
        let a0 = if a < i {
            a
        } else {
            a + 1
        };
        let b0 = if b < i {
            b
        } else {
            b + 1
        };
        assert(s.remove(i)[a] == s[a0]);
        assert(s.remove(i)[b] == s[b0]);
    }
}

/// A seat with its ready flag set as given.
pub open spec fn entry_with_ready(e: EntryV, v: bool) -> EntryV {
    EntryV { lobby_state: LobbyStateV { is_ready: v, ..e.lobby_state }, ..e }
}

/// A seat with its score zeroed and its hand and discard budgets restored.
pub open spec fn entry_scores_reset(e: EntryV) -> EntryV {
    EntryV {
        game_state: GameStateV {
            score: TnView::Regular(DecNum::Num { mant: 0, exp: 0 }),
            hands_left: e.game_state.hands_max,
            discards_left: e.game_state.discards_max,
            ..e.game_state
        },
        ..e
    }
}

/// A seat dealt back in: ready off, fresh game state with the given lives,
/// in-game flag as given.
pub open spec fn entry_dealt(e: EntryV, lives: u8, in_game: bool) -> EntryV {
    EntryV {
        profile: e.profile,
        lobby_state: LobbyStateV { is_ready: false, in_game, ..e.lobby_state },
        game_state: GameStateV { lives, ..spec_default_game_state() },
    }
}

/// Two seat lists that agree on every host flag have the same host count.
pub proof fn lemma_host_count_pointwise(s1: Seq<(Seq<char>, EntryV)>, s2: Seq<(Seq<char>, EntryV)>)
    requires
        s1.len() == s2.len(),
        forall|i: int|
            0 <= i < s1.len() ==> (#[trigger] s1[i]).1.lobby_state.is_host
                == (#[trigger] s2[i]).1.lobby_state.is_host,
    ensures
        host_count(s1) == host_count(s2),
    decreases s1.len(),
{
    if s1.len() > 0 {
        lemma_host_count_pointwise(s1.drop_last(), s2.drop_last());
        assert(s1[s1.len() - 1].1.lobby_state.is_host == s2[s2.len()
            - 1].1.lobby_state.is_host);
    }
}

/// Whether every in-game seat is ready.
pub open spec fn spec_all_in_game_ready(ps: Seq<(Seq<char>, EntryV)>) -> bool {
    forall|i: int|
        0 <= i < ps.len() ==> ((#[trigger] ps[i]).1.lobby_state.in_game ==> ps[i].1.lobby_state
            .is_ready)
}

/// The lobby with one seat's ready flag set, found by id; unknown ids leave
/// it unchanged.
pub open spec fn ready_set(l: LobbyV, pid: Seq<char>, v: bool) -> LobbyV {
    if seated(l.players, pid) {
        LobbyV {
            players: l.players.update(
                seat_index(l.players, pid),
                (pid, entry_with_ready(l.players[seat_index(l.players, pid)].1, v)),
            ),
            ..l
        }
    } else {
        l
    }
}

/// Whether every in-game seat has no hands left.
pub open spec fn all_done(ps: Seq<(Seq<char>, EntryV)>) -> bool {
    forall|i: int|
        0 <= i < ps.len() ==> ((#[trigger] ps[i]).1.lobby_state.in_game ==> ps[i].1.game_state
            .hands_left == 0)
}

/// Whether any seat has zero lives.
pub open spec fn someone_dead(ps: Seq<(Seq<char>, EntryV)>) -> bool {
    exists|i: int| 0 <= i < ps.len() && (#[trigger] ps[i]).1.game_state.lives == 0
}

/// How many seats are in the running game.
pub open spec fn in_game_count(ps: Seq<(Seq<char>, EntryV)>) -> int
    decreases ps.len(),
{
    if ps.len() == 0 {
        0
    } else {
        in_game_count(ps.drop_last()) + if ps.last().1.lobby_state.in_game {
            1int
        } else {
            0int
        }
    }
}

/// The in-game count never exceeds the seat count.
pub proof fn lemma_in_game_count_bound(ps: Seq<(Seq<char>, EntryV)>)
    ensures
        0 <= in_game_count(ps) <= ps.len(),
    decreases ps.len(),
{
    if ps.len() > 0 {
        lemma_in_game_count_bound(ps.drop_last());
    }
}

/// The sum of all seated scores, left to right, over the first `n` seats.
pub open spec fn spec_total_score(ps: Seq<(Seq<char>, EntryV)>, n: int) -> TnView
    decreases n,
{
    if n <= 0 {
        TnView::Regular(DecNum::Num { mant: 0, exp: 0 })
    } else {
        spec_score_add(spec_total_score(ps, n - 1), ps[n - 1].1.game_state.score)
    }
}

/// The largest furthest-blind of the seats, zero when there are none.
pub open spec fn max_blind(ps: Seq<(Seq<char>, EntryV)>) -> u32
    decreases ps.len(),
{
    if ps.len() == 0 {
        0u32
    } else if ps.last().1.game_state.furthest_blind > max_blind(ps.drop_last()) {
        ps.last().1.game_state.furthest_blind
    } else {
        max_blind(ps.drop_last())
    }
}

/// The ids of the seats a predicate admits, in seat order.
pub open spec fn ids_where(
    ps: Seq<(Seq<char>, EntryV)>,
    f: spec_fn((Seq<char>, EntryV)) -> bool,
) -> Seq<Seq<char>>
    decreases ps.len(),
{
    if ps.len() == 0 {
        Seq::empty()
    } else if f(ps.last()) {
        ids_where(ps.drop_last(), f).push(ps.last().0)
    } else {
        ids_where(ps.drop_last(), f)
    }
}

/// A sequence of id strings, viewed.
pub open spec fn ids_views(s: Seq<String>) -> Seq<Seq<char>> {
    s.map_values(|x: String| x@)
}

/// Whether a message is the ready-states report of these seats: each seated
/// id with its ready flag, in join order.
pub open spec fn ready_payload(msg: ServerToClient, players: Seq<(Seq<char>, EntryV)>) -> bool {
    msg matches ServerToClient::LobbyReady { ready_states } && ready_states@.map_values(
        |p: (String, bool)| (p.0@, p.1),
    ) == players.map_values(|p: (Seq<char>, EntryV)| (p.0, p.1.lobby_state.is_ready))
}

/// Whether a message is the in-game report of these seats: each seated id
/// with its in-game flag, in join order.
pub open spec fn statuses_payload(msg: ServerToClient, players: Seq<(Seq<char>, EntryV)>) -> bool {
    msg matches ServerToClient::InGameStatuses { statuses } && statuses@.map_values(
        |p: (String, bool)| (p.0@, p.1),
    ) == players.map_values(|p: (Seq<char>, EntryV)| (p.0, p.1.lobby_state.in_game))
}

/// Whether a seat's score is maximal over all seats.
pub open spec fn is_top_all(ps: Seq<(Seq<char>, EntryV)>, p: (Seq<char>, EntryV)) -> bool {
    forall|j: int|
        0 <= j < ps.len() ==> !score_lt(p.1.game_state.score, (#[trigger] ps[j]).1.game_state.score)
}

/// Whether a seat is in the running game and its score is maximal over the
/// in-game seats.
pub open spec fn is_top_in_game(ps: Seq<(Seq<char>, EntryV)>, p: (Seq<char>, EntryV)) -> bool {
    p.1.lobby_state.in_game && forall|j: int|
        0 <= j < ps.len() && (#[trigger] ps[j]).1.lobby_state.in_game ==> !score_lt(
            p.1.game_state.score,
            ps[j].1.game_state.score,
        )
}

/// The seat index of an id (meaningful when the id is seated).
pub open spec fn seat_index(ps: Seq<(Seq<char>, EntryV)>, id: Seq<char>) -> int {
    choose|i: int| 0 <= i < ps.len() && ps[i].0 == id
}

/// The entry seated under an id.
pub open spec fn entry_of(ps: Seq<(Seq<char>, EntryV)>, id: Seq<char>) -> EntryV {
    ps[seat_index(ps, id)].1
}

/// With unique ids, the seat index of a seated id is its only witness.
pub proof fn lemma_seat_index(ps: Seq<(Seq<char>, EntryV)>, j: int)
    requires
        players_unique(ps),
        0 <= j < ps.len(),
    ensures
        seat_index(ps, ps[j].0) == j,
        entry_of(ps, ps[j].0) == ps[j].1,
{
    let id = ps[j].0;
    assert(0 <= j < ps.len() && ps[j].0 == id);
    let k = seat_index(ps, id);
    if k != j {
        if k < j {
            assert(ps[k].0 != ps[j].0);
        } else {
            assert(ps[j].0 != ps[k].0);
        }
    }
}

/// Kept ids never outnumber the seats.
pub proof fn lemma_ids_where_len(
    ps: Seq<(Seq<char>, EntryV)>,
    f: spec_fn((Seq<char>, EntryV)) -> bool,
)
    ensures
        ids_where(ps, f).len() <= ps.len(),
    decreases ps.len(),
{
    if ps.len() > 0 {
        lemma_ids_where_len(ps.drop_last(), f);
    }
}

/// An id is kept exactly when some seat under it satisfies the predicate;
/// with unique seats the kept ids are unique.
pub proof fn lemma_ids_where_contains(
    ps: Seq<(Seq<char>, EntryV)>,
    f: spec_fn((Seq<char>, EntryV)) -> bool,
)
    requires
        players_unique(ps),
    ensures
        forall|x: Seq<char>|
            #[trigger] ids_where(ps, f).contains(x) <==> exists|i: int|
                0 <= i < ps.len() && (#[trigger] ps[i]).0 == x && f(ps[i]),
        ids_unique_seq(ids_where(ps, f)),
    decreases ps.len(),
{
    if ps.len() > 0 {
        lemma_ids_where_contains(ps.drop_last(), f);
        let r = ids_where(ps, f);
        let rd = ids_where(ps.drop_last(), f);
        assert forall|x: Seq<char>| #[trigger] r.contains(x) implies exists|i: int|
            0 <= i < ps.len() && (#[trigger] ps[i]).0 == x && f(ps[i]) by {
            if f(ps.last()) {
                let k = choose|k: int| 0 <= k < r.len() && r[k] == x;
                if k < rd.len() {
                    assert(rd.contains(x));
                    let i = choose|i: int|
                        0 <= i < ps.drop_last().len() && (#[trigger] ps.drop_last()[i]).0 == x && f(
                            ps.drop_last()[i],
                        );
                    assert(ps[i].0 == x && f(ps[i]));
                } else {
                    assert(x == ps.last().0);
                    assert(ps[ps.len() - 1].0 == x && f(ps[ps.len() - 1]));
                }
            } else {
                let i = choose|i: int|
                    0 <= i < ps.drop_last().len() && (#[trigger] ps.drop_last()[i]).0 == x && f(
                        ps.drop_last()[i],
                    );
                assert(ps[i].0 == x && f(ps[i]));
            }
        }
        assert forall|x: Seq<char>|
            (exists|i: int| 0 <= i < ps.len() && (#[trigger] ps[i]).0 == x && f(ps[i]))
                implies #[trigger] r.contains(x) by {
            let i = choose|i: int| 0 <= i < ps.len() && (#[trigger] ps[i]).0 == x && f(ps[i]);
            if i < ps.len() - 1 {
                assert(ps.drop_last()[i].0 == x && f(ps.drop_last()[i]));
                assert(rd.contains(x));
                if f(ps.last()) {
                    let q = choose|q: int| 0 <= q < rd.len() && rd[q] == x;
                    assert(r[q] == x);
                }
            } else {
                assert(f(ps.last()) && ps.last().0 == x);
                assert(r[r.len() - 1] == x);
            }
        }
        if f(ps.last()) {
            assert forall|a: int, b: int| 0 <= a < b < r.len() implies r[a] != r[b] by {
                if b == r.len() - 1 {
                    assert(rd.contains(rd[a]));
                    let i = choose|i: int|
                        0 <= i < ps.drop_last().len() && (#[trigger] ps.drop_last()[i]).0 == rd[a]
                            && f(ps.drop_last()[i]);
                    assert(ps[i].0 == rd[a]);
                    assert(ps[ps.len() - 1].0 == ps.last().0);
                }
            }
        }
    }
}

/// No id occurs twice.
pub open spec fn ids_unique_seq(s: Seq<Seq<char>>) -> bool {
    forall|i: int, j: int| 0 <= i < j < s.len() ==> s[i] != s[j]
}

/// Whether some seat carries the id.
pub open spec fn seated(ps: Seq<(Seq<char>, EntryV)>, id: Seq<char>) -> bool {
    exists|i: int| 0 <= i < ps.len() && (#[trigger] ps[i]).0 == id
}

/// What inserting an id into a list does to indices, membership and
/// uniqueness.
pub proof fn lemma_ids_insert(s: Seq<Seq<char>>, q: int, x: Seq<char>)
    requires
        0 <= q <= s.len(),
    ensures
        s.insert(q, x).len() == s.len() + 1,
        forall|t: int| 0 <= t < q ==> #[trigger] s.insert(q, x)[t] == s[t],
        s.insert(q, x)[q] == x,
        forall|t: int| q < t < s.len() + 1 ==> #[trigger] s.insert(q, x)[t] == s[t - 1],
        forall|y: Seq<char>| #[trigger] s.insert(q, x).contains(y) <==> (s.contains(y) || y == x),
        (ids_unique_seq(s) && !s.contains(x)) ==> ids_unique_seq(s.insert(q, x)),
{
    let r = s.insert(q, x);
    assert forall|y: Seq<char>| #[trigger] r.contains(y) implies (s.contains(y) || y == x) by {
        let k = choose|k: int| 0 <= k < r.len() && r[k] == y;
        if k < q {
            assert(s[k] == y);
        } else if k > q {
            assert(s[k - 1] == y);
        }
    }
    assert forall|y: Seq<char>| s.contains(y) implies #[trigger] r.contains(y) by {
        let k = choose|k: int| 0 <= k < s.len() && s[k] == y;
        if k < q {
            assert(r[k] == y);
        } else {
            assert(r[k + 1] == y);
        }
    }
    assert(r[q] == x);
    assert(r.contains(x));
    if ids_unique_seq(s) && !s.contains(x) {
        assert forall|a: int, b: int| 0 <= a < b < r.len() implies r[a] != r[b] by {
            if a == q {
                assert(r[b] == s[b - 1]);
                assert(s.contains(s[b - 1]));
            } else if b == q {
                assert(r[a] == s[a]);
                assert(s.contains(s[a]));
            }
        }
    }
}

/// Subtraction on lives that stops at zero.
pub open spec fn sat_sub_u8(x: u8, d: u8) -> u8 {
    if x >= d {
        (x - d) as u8
    } else {
        0u8
    }
}

/// The damage the Clash loser ranked `i` takes at a stage: the stage's base
/// damage (the schedule saturates at its last entry) plus `i + 1`, capped at
/// the lives range.
pub open spec fn clash_damage(stage: int, i: int) -> u8 {
    let base = clash_base(stage);
    if base + i + 1 > 255 {
        255u8
    } else {
        (base + i + 1) as u8
    }
}

/// The stage's base damage: the schedule rises one point per stage and
/// saturates at its last entry.
pub open spec fn clash_base(stage: int) -> int {
    if 0 <= stage && stage < 8 {
        stage + 1
    } else {
        8
    }
}

/// Whether an id stands among the first `n` entries of the loser list.
pub open spec fn in_losers_up_to(lv: Seq<Seq<char>>, id: Seq<char>, n: int) -> bool {
    exists|a: int| 0 <= a < n && a < lv.len() && lv[a] == id
}

/// The rank of an id among the first `n` entries of the loser list.
pub open spec fn loser_rank_before(lv: Seq<Seq<char>>, id: Seq<char>, n: int) -> int {
    choose|a: int| 0 <= a < n && a < lv.len() && lv[a] == id
}

/// In a duplicate-free loser list, an entry's rank is its index.
pub proof fn lemma_loser_rank(lv: Seq<Seq<char>>, i: int, n: int)
    requires
        ids_unique_seq(lv),
        0 <= i < n,
        i < lv.len(),
    ensures
        loser_rank_before(lv, lv[i], n) == i,
        in_losers_up_to(lv, lv[i], n),
{
    assert(0 <= i < n && i < lv.len() && lv[i] == lv[i]);
    let a = loser_rank_before(lv, lv[i], n);
    if a != i {
        if a < i {
            assert(lv[a] != lv[i]);
        } else {
            assert(lv[i] != lv[a]);
        }
    }
}

/// With unique entries, the rank of an id does not depend on how much of
/// the list is considered.
pub proof fn lemma_rank_unique(lv: Seq<Seq<char>>, id: Seq<char>, n1: int, n2: int)
    requires
        ids_unique_seq(lv),
        in_losers_up_to(lv, id, n1),
        in_losers_up_to(lv, id, n2),
    ensures
        loser_rank_before(lv, id, n1) == loser_rank_before(lv, id, n2),
{
    let a1 = loser_rank_before(lv, id, n1);
    let a2 = loser_rank_before(lv, id, n2);
    if a1 != a2 {
        if a1 < a2 {
            assert(lv[a1] != lv[a2]);
        } else {
            assert(lv[a2] != lv[a1]);
        }
    }
}

/// The lives of seat `k` after the first `n` Clash losers have paid.
pub open spec fn clash_loss_partial(l: LobbyV, lv: Seq<Seq<char>>, k: int, n: int) -> u8 {
    let lives = l.players[k].1.game_state.lives;
    if in_losers_up_to(lv, l.players[k].0, n) {
        sat_sub_u8(lives, clash_damage(l.stage as int, loser_rank_before(lv, l.players[k].0, n)))
    } else {
        lives
    }
}

/// The lives of seat `k` after the first `n` standard-mode losers have paid.
pub open spec fn default_loss_partial(l: LobbyV, lv: Seq<Seq<char>>, k: int, n: int) -> u8 {
    let lives = l.players[k].1.game_state.lives;
    if in_losers_up_to(lv, l.players[k].0, n) {
        sat_sub_u8(lives, 1)
    } else {
        lives
    }
}

/// The lives of seat `k` after the round's losses: nothing when no one lost;
/// one from everyone in cooperative survival; ranked damage in Clash; one
/// from each loser elsewhere.
pub open spec fn loss_spec(l: LobbyV, lv: Seq<Seq<char>>, k: int) -> u8 {
    let lives = l.players[k].1.game_state.lives;
    if lv.len() == 0 {
        lives
    } else if l.lobby_options.gamemode == GameMode::CoopSurvival {
        sat_sub_u8(lives, 1)
    } else if l.lobby_options.gamemode == GameMode::Clash {
        clash_loss_partial(l, lv, k, lv.len() as int)
    } else {
        default_loss_partial(l, lv, k, lv.len() as int)
    }
}

/// The Clash stage after a round: one step forward when someone lost.
pub open spec fn stage_after(l: LobbyV, nlosers: int) -> i32 {
    if l.lobby_options.gamemode == GameMode::Clash && nlosers > 0 && l.stage < i32::MAX {
        (l.stage + 1) as i32
    } else {
        l.stage
    }
}

/// How many seats are in the game with lives left.
pub open spec fn alive_in_game_count(ps: Seq<(Seq<char>, EntryV)>) -> int
    decreases ps.len(),
{
    if ps.len() == 0 {
        0
    } else {
        alive_in_game_count(ps.drop_last()) + if ps.last().1.lobby_state.in_game
            && ps.last().1.game_state.lives > 0 {
            1int
        } else {
            0int
        }
    }
}

/// How many seats hold lives.
pub open spec fn alive_count(ps: Seq<(Seq<char>, EntryV)>) -> int
    decreases ps.len(),
{
    if ps.len() == 0 {
        0
    } else {
        alive_count(ps.drop_last()) + if ps.last().1.game_state.lives > 0 {
            1int
        } else {
            0int
        }
    }
}

/// The alive counts are bounded by the seat count.
pub proof fn lemma_alive_counts_bound(ps: Seq<(Seq<char>, EntryV)>)
    ensures
        0 <= alive_in_game_count(ps) <= ps.len(),
        0 <= alive_count(ps) <= ps.len(),
    decreases ps.len(),
{
    if ps.len() > 0 {
        lemma_alive_counts_bound(ps.drop_last());
    }
}

/// Two seat lists with the same lives everywhere count the same alive seats.
pub proof fn lemma_alive_count_pointwise(
    s1: Seq<(Seq<char>, EntryV)>,
    s2: Seq<(Seq<char>, EntryV)>,
)
    requires
        s1.len() == s2.len(),
        forall|i: int|
            0 <= i < s1.len() ==> (#[trigger] s1[i]).1.game_state.lives
                == (#[trigger] s2[i]).1.game_state.lives,
    ensures
        alive_count(s1) == alive_count(s2),
        someone_dead(s1) == someone_dead(s2),
    decreases s1.len(),
{
    if s1.len() > 0 {
        lemma_alive_count_pointwise(s1.drop_last(), s2.drop_last());
        assert(s1[s1.len() - 1].1.game_state.lives == s2[s2.len() - 1].1.game_state.lives);
        assert(someone_dead(s1) == someone_dead(s2)) by {
            if someone_dead(s1) {
                let i = choose|i: int|
                    0 <= i < s1.len() && (#[trigger] s1[i]).1.game_state.lives == 0;
                assert(s2[i].1.game_state.lives == 0);
            }
            if someone_dead(s2) {
                let i = choose|i: int|
                    0 <= i < s2.len() && (#[trigger] s2[i]).1.game_state.lives == 0;
                assert(s1[i].1.game_state.lives == 0);
            }
        }
    } else {
        assert(!someone_dead(s1) && !someone_dead(s2));
    }
}

/// Marking the dead out of the game does not move the lives-based
/// partitions.
pub proof fn lemma_where_pointwise(l1: LobbyV, l2: LobbyV)
    requires
        l1.players.len() == l2.players.len(),
        forall|i: int|
            0 <= i < l1.players.len() ==> (#[trigger] l1.players[i]).0 == (
            #[trigger] l2.players[i]).0 && l1.players[i].1.game_state.lives
                == l2.players[i].1.game_state.lives,
    ensures
        ids_where(l1.players, |p: (Seq<char>, EntryV)| p.1.game_state.lives > 0) =~= ids_where(
            l2.players,
            |p: (Seq<char>, EntryV)| p.1.game_state.lives > 0,
        ),
        ids_where(l1.players, |p: (Seq<char>, EntryV)| !(p.1.game_state.lives > 0)) =~= ids_where(
            l2.players,
            |p: (Seq<char>, EntryV)| !(p.1.game_state.lives > 0),
        ),
    decreases l1.players.len(),
{
    if l1.players.len() > 0 {
        let d1 = LobbyV { players: l1.players.drop_last(), ..l1 };
        let d2 = LobbyV { players: l2.players.drop_last(), ..l2 };
        lemma_where_pointwise(d1, d2);
        assert(l1.players[l1.players.len() - 1].1.game_state.lives == l2.players[l2.players.len()
            - 1].1.game_state.lives);
        assert(l1.players.last() == l1.players[l1.players.len() - 1]);
        assert(l2.players.last() == l2.players[l2.players.len() - 1]);
    }
}

/// Whether the game is over, by mode: survival runs until at most one
/// in-game player holds lives; cooperative survival and the standard modes
/// end on the first death; Clash ends when a death leaves at most one player
/// with lives.
pub open spec fn game_over_spec(l: LobbyV) -> bool {
    if l.lobby_options.gamemode == GameMode::Survival {
        alive_in_game_count(l.players) <= 1
    } else if l.lobby_options.gamemode == GameMode::CoopSurvival {
        someone_dead(l.players)
    } else if l.lobby_options.gamemode == GameMode::Clash {
        someone_dead(l.players) && alive_count(l.players) <= 1
    } else {
        someone_dead(l.players)
    }
}

/// Who wins and who loses when the game ends (or, in Clash, whenever a death
/// is handled): survival goes to the furthest blind, cooperative survival
/// loses as a team, and the other modes split by who still holds lives.
pub open spec fn game_outcome_spec(l: LobbyV, ended: bool, w: Seq<Seq<char>>, lo: Seq<Seq<char>>) -> bool {
    if l.lobby_options.gamemode == GameMode::Survival {
        if ended {
            let maxb = max_blind(l.players);
            w =~= ids_where(
                l.players,
                |p: (Seq<char>, EntryV)| p.1.game_state.furthest_blind == maxb,
            ) && lo =~= ids_where(
                l.players,
                |p: (Seq<char>, EntryV)| p.1.game_state.furthest_blind != maxb,
            )
        } else {
            w =~= Seq::<Seq<char>>::empty() && lo =~= Seq::<Seq<char>>::empty()
        }
    } else if l.lobby_options.gamemode == GameMode::CoopSurvival {
        if ended {
            w =~= Seq::<Seq<char>>::empty() && lo =~= ids_where(
                l.players,
                |p: (Seq<char>, EntryV)| true,
            )
        } else {
            w =~= Seq::<Seq<char>>::empty() && lo =~= Seq::<Seq<char>>::empty()
        }
    } else if l.lobby_options.gamemode == GameMode::Clash {
        if someone_dead(l.players) {
            w =~= ids_where(l.players, |p: (Seq<char>, EntryV)| p.1.game_state.lives > 0) && lo
                =~= ids_where(l.players, |p: (Seq<char>, EntryV)| !(p.1.game_state.lives > 0))
        } else {
            w =~= Seq::<Seq<char>>::empty() && lo =~= Seq::<Seq<char>>::empty()
        }
    } else {
        if ended {
            w =~= ids_where(l.players, |p: (Seq<char>, EntryV)| p.1.game_state.lives > 0) && lo
                =~= ids_where(l.players, |p: (Seq<char>, EntryV)| !(p.1.game_state.lives > 0))
        } else {
            w =~= Seq::<Seq<char>>::empty() && lo =~= Seq::<Seq<char>>::empty()
        }
    }
}

/// The lobby after the round's losses are applied.
pub open spec fn after_loss(l: LobbyV, lv: Seq<Seq<char>>) -> LobbyV {
    LobbyV {
        players: Seq::new(
            l.players.len(),
            |k: int|
                (
                    l.players[k].0,
                    EntryV {
                        game_state: GameStateV {
                            lives: loss_spec(l, lv, k),
                            ..l.players[k].1.game_state
                        },
                        ..l.players[k].1
                    },
                ),
        ),
        stage: stage_after(l, lv.len() as int),
        ..l
    }
}

/// The lobby after a Clash death check marked the dead out of the game.
pub open spec fn after_mark(l: LobbyV) -> LobbyV {
    if l.lobby_options.gamemode == GameMode::Clash && someone_dead(l.players) {
        LobbyV {
            players: l.players.map_values(
                |p: (Seq<char>, EntryV)| (
                    p.0,
                    EntryV {
                        lobby_state: LobbyStateV {
                            in_game: p.1.lobby_state.in_game && p.1.game_state.lives > 0,
                            ..p.1.lobby_state
                        },
                        ..p.1
                    },
                ),
            ),
            ..l
        }
    } else {
        l
    }
}

/// Everything one round evaluation decided: whether it ran at all, whether
/// the game ended, the round's winners and losers, the game's final winners
/// and losers, and the deliveries owed.
#[derive(Debug)]
pub struct RoundReport {
    pub evaluated: bool,
    pub ended: bool,
    pub winners: Vec<String>,
    pub losers: Vec<String>,
    pub final_winners: Vec<String>,
    pub final_losers: Vec<String>,
    pub effects: Vec<Effect>,
}

/// While a lobby is non-empty it has exactly one host, and it never seats
/// more players than its cap: both stand in the lobby invariant, which every
/// join, leave, option update and round operation preserves.
pub proof fn lemma_one_host_and_cap(l: LobbyV)
    requires
        lobby_wf(l),
    ensures
        l.players.len() > 0 ==> host_count(l.players) == 1,
        l.players.len() <= l.max_players,
{
}

/// Lives only ever fall when a round's losses are applied: the arithmetic
/// saturates at zero and no seat gains a life.
pub proof fn lemma_lives_never_rise(l: LobbyV, lv: Seq<Seq<char>>, k: int)
    requires
        0 <= k < l.players.len(),
    ensures
        loss_spec(l, lv, k) <= l.players[k].1.game_state.lives,
{
}

/// A round evaluation that does not end the game restores every in-game
/// player's hand budget; as long as some in-game player has a positive
/// budget, the round cannot be judged again until someone plays: evaluating
/// twice in a row is a no-op.
pub proof fn lemma_evaluation_idempotent(l: LobbyV, lv: Seq<Seq<char>>)
    requires
        exists|i: int|
            0 <= i < after_mark(after_loss(l, lv)).players.len() && (#[trigger] after_mark(
                after_loss(l, lv),
            ).players[i]).1.lobby_state.in_game && after_mark(after_loss(l, lv)).players[i].1
                .game_state.hands_max > 0,
    ensures
        !all_done(
            after_mark(after_loss(l, lv)).players.map_values(
                |p: (Seq<char>, EntryV)| (p.0, entry_scores_reset(p.1)),
            ),
        ),
{
    let marked = after_mark(after_loss(l, lv));
    let reset = marked.players.map_values(
        |p: (Seq<char>, EntryV)| (p.0, entry_scores_reset(p.1)),
    );
    let i = choose|i: int|
        0 <= i < marked.players.len() && (#[trigger] marked.players[i]).1.lobby_state.in_game
            && marked.players[i].1.game_state.hands_max > 0;
    assert(reset[i].1.lobby_state.in_game && reset[i].1.game_state.hands_left > 0);
}

/// Each Clash evaluation that produced a loser moves the stage strictly
/// forward (until the stage counter's numeric ceiling), and every damage
/// lookup clamps the stage into the schedule, so the schedule is always
/// indexed in bounds and deals at least one point.
pub proof fn lemma_clash_stage(l: LobbyV, nlosers: int, i: int)
    requires
        l.lobby_options.gamemode == GameMode::Clash,
        0 <= l.stage,
        0 <= i,
    ensures
        nlosers > 0 && l.stage < i32::MAX ==> stage_after(l, nlosers) == l.stage + 1,
        nlosers == 0 ==> stage_after(l, nlosers) == l.stage,
        1 <= clash_damage(l.stage as int, i),
        0 <= (if 0 <= l.stage && l.stage < 8 {
            l.stage as int
        } else {
            7int
        }) < 8,
{
}

/// Everything one round evaluation guarantees, from the pre state to the
/// post state: whether it ran, the round outcome, the game-over outcome, the
/// exact post state and the exact deliveries (game-state updates for every
/// seat, then the outcome messages, then — when a death left the game
/// running, as a Clash death can — the dead players' notices, the ready
/// states on a finished game, and the in-game statuses).
#[verifier::opaque]
pub open spec fn evaluation_post(
    pre: LobbyV,
    post: LobbyV,
    mv: Seq<Seq<char>>,
    evaluated: bool,
    ended: bool,
    w: Seq<Seq<char>>,
    lo: Seq<Seq<char>>,
    fw: Seq<Seq<char>>,
    fl: Seq<Seq<char>>,
    effects: Seq<Effect>,
) -> bool {
    &&& evaluated == all_done(pre.players)
    &&& (!evaluated ==> post == pre && !ended && effects.len() == 0)
    &&& (evaluated ==> round_victory_spec(pre, w, lo))
    &&& (evaluated ==> ended == game_over_spec(after_loss(pre, lo)))
    &&& (evaluated ==> game_outcome_spec(after_loss(pre, lo), ended, fw, fl))
    &&& (evaluated && ended ==> post == (LobbyV {
        started: false,
        players: after_mark(after_loss(pre, lo)).players.map_values(
            |p: (Seq<char>, EntryV)| (p.0, entry_with_ready(p.1, p.1.lobby_state.is_host)),
        ),
        ..after_mark(after_loss(pre, lo))
    }))
    &&& (evaluated && !ended ==> post == (LobbyV {
        players: after_mark(after_loss(pre, lo)).players.map_values(
            |p: (Seq<char>, EntryV)| (p.0, entry_scores_reset(p.1)),
        ),
        ..after_mark(after_loss(pre, lo))
    }))
    &&& (evaluated ==> {
        let n = pre.players.len() as int;
        let mid = after_loss(pre, lo);
        &&& effects.len() == n + (if ended {
            fw.len() + fl.len() + 1int
        } else {
            w.len() + lo.len() + fl.len() + 0int
        }) + 1
        &&& forall|j: int|
            0 <= j < n ==> is_broadcast(#[trigger] effects[j], mv) && (effects[j]->Send_msg
                matches ServerToClient::GameStateUpdate { player_id, game_state } && player_id@
                == mid.players[j].0 && game_state@ == mid.players[j].1.game_state)
        &&& (!ended ==> (forall|t: int|
            0 <= t < w.len() ==> is_unicast(#[trigger] effects[n + t], mv, w[t]) && (effects[n
                + t]->Send_msg matches ServerToClient::EndPvp { won } && won)))
        &&& (!ended ==> (forall|t: int|
            0 <= t < lo.len() ==> is_unicast(#[trigger] effects[n + w.len() + t], mv, lo[t]) && (
            effects[n + w.len() + t]->Send_msg matches ServerToClient::EndPvp { won } && !won)))
        &&& (!ended ==> (forall|t: int|
            0 <= t < fl.len() ==> is_unicast(
                #[trigger] effects[n + w.len() + lo.len() + t],
                mv,
                fl[t],
            ) && (effects[n + w.len() + lo.len() + t]->Send_msg
                matches ServerToClient::LoseGame { .. })))
        &&& (ended ==> (forall|t: int|
            0 <= t < fw.len() ==> is_unicast(#[trigger] effects[n + t], mv, fw[t]) && (effects[n
                + t]->Send_msg matches ServerToClient::WinGame { .. })))
        &&& (ended ==> (forall|t: int|
            0 <= t < fl.len() ==> is_unicast(
                #[trigger] effects[n + fw.len() + t],
                mv,
                fl[t],
            ) && (effects[n + fw.len() + t]->Send_msg matches ServerToClient::LoseGame { .. })))
        &&& (ended ==> is_broadcast(effects[n + fw.len() + fl.len()], mv) && (effects[n + fw.len()
            + fl.len()]->Send_msg matches ServerToClient::LobbyReady { .. }) && ready_payload(
            effects[n + fw.len() + fl.len()]->Send_msg,
            post.players,
        ))
        &&& is_broadcast(effects[effects.len() - 1], mv) && (effects[effects.len() - 1]->Send_msg
            matches ServerToClient::InGameStatuses { .. }) && statuses_payload(
            effects[effects.len() - 1]->Send_msg,
            post.players,
        )
    })
}

/// The loser list of any round outcome names each seated id at most once.
pub proof fn lemma_victory_ids_ok(l: LobbyV, w: Seq<Seq<char>>, lo: Seq<Seq<char>>)
    requires
        lobby_wf(l),
        round_victory_spec(l, w, lo),
    ensures
        ids_unique_seq(lo),
        forall|a: int| 0 <= a < lo.len() ==> seated(l.players, #[trigger] lo[a]),
{
    if l.lobby_options.gamemode == GameMode::CoopSurvival {
        lemma_ids_where_contains(l.players, |p: (Seq<char>, EntryV)| true);
    } else if l.lobby_options.gamemode == GameMode::Clash {
        assert forall|a: int| 0 <= a < lo.len() implies seated(l.players, #[trigger] lo[a]) by {
            assert(lo.contains(lo[a]));
            let i = choose|i: int|
                0 <= i < l.players.len() && (#[trigger] l.players[i]).0 == lo[a]
                    && l.players[i].1.lobby_state.in_game && !is_top_in_game(
                    l.players,
                    l.players[i],
                );
            assert(l.players[i].0 == lo[a]);
        }
    } else if l.lobby_options.gamemode == GameMode::Survival {
        let maxb = max_blind(l.players);
        lemma_ids_where_contains(
            l.players,
            |p: (Seq<char>, EntryV)| p.1.game_state.furthest_blind != maxb,
        );
    } else {
        if l.players.len() >= 2 {
            lemma_ids_where_contains(
                l.players,
                |p: (Seq<char>, EntryV)| !is_top_all(l.players, p),
            );
        }
    }
    assert forall|a: int| 0 <= a < lo.len() implies seated(l.players, #[trigger] lo[a]) by {
        assert(lo.contains(lo[a]));
        if l.lobby_options.gamemode == GameMode::CoopSurvival {
            let i = choose|i: int|
                0 <= i < l.players.len() && (#[trigger] l.players[i]).0 == lo[a] && (|
                    p: (Seq<char>, EntryV),
                |
                    true)(l.players[i]);
            assert(l.players[i].0 == lo[a]);
        } else if l.lobby_options.gamemode == GameMode::Clash {
        } else if l.lobby_options.gamemode == GameMode::Survival {
            let maxb = max_blind(l.players);
            let i = choose|i: int|
                0 <= i < l.players.len() && (#[trigger] l.players[i]).0 == lo[a] && (|
                    p: (Seq<char>, EntryV),
                |
                    p.1.game_state.furthest_blind != maxb)(l.players[i]);
            assert(l.players[i].0 == lo[a]);
        } else {
            if l.players.len() >= 2 {
                let i = choose|i: int|
                    0 <= i < l.players.len() && (#[trigger] l.players[i]).0 == lo[a] && (|
                        p: (Seq<char>, EntryV),
                    |
                        !is_top_all(l.players, p))(l.players[i]);
                assert(l.players[i].0 == lo[a]);
            }
        }
    }
}

/// The game-over winners, as a function: who `game_outcome_spec` admits.
pub open spec fn go_winners(l: LobbyV, ended: bool) -> Seq<Seq<char>> {
    if l.lobby_options.gamemode == GameMode::Survival {
        if ended {
            ids_where(
                l.players,
                |p: (Seq<char>, EntryV)| p.1.game_state.furthest_blind == max_blind(l.players),
            )
        } else {
            Seq::empty()
        }
    } else if l.lobby_options.gamemode == GameMode::CoopSurvival {
        Seq::empty()
    } else if l.lobby_options.gamemode == GameMode::Clash {
        if someone_dead(l.players) {
            ids_where(l.players, |p: (Seq<char>, EntryV)| p.1.game_state.lives > 0)
        } else {
            Seq::empty()
        }
    } else {
        if ended {
            ids_where(l.players, |p: (Seq<char>, EntryV)| p.1.game_state.lives > 0)
        } else {
            Seq::empty()
        }
    }
}

/// The game-over losers, as a function: who `game_outcome_spec` admits.
pub open spec fn go_losers(l: LobbyV, ended: bool) -> Seq<Seq<char>> {
    if l.lobby_options.gamemode == GameMode::Survival {
        if ended {
            ids_where(
                l.players,
                |p: (Seq<char>, EntryV)| p.1.game_state.furthest_blind != max_blind(l.players),
            )
        } else {
            Seq::empty()
        }
    } else if l.lobby_options.gamemode == GameMode::CoopSurvival {
        if ended {
            ids_where(l.players, |p: (Seq<char>, EntryV)| true)
        } else {
            Seq::empty()
        }
    } else if l.lobby_options.gamemode == GameMode::Clash {
        if someone_dead(l.players) {
            ids_where(l.players, |p: (Seq<char>, EntryV)| !(p.1.game_state.lives > 0))
        } else {
            Seq::empty()
        }
    } else {
        if ended {
            ids_where(l.players, |p: (Seq<char>, EntryV)| !(p.1.game_state.lives > 0))
        } else {
            Seq::empty()
        }
    }
}

/// `game_outcome_spec` pins its lists to the outcome functions.
pub proof fn lemma_go_functions(l: LobbyV, ended: bool, w: Seq<Seq<char>>, lo: Seq<Seq<char>>)
    requires
        game_outcome_spec(l, ended, w, lo),
    ensures
        w == go_winners(l, ended),
        lo == go_losers(l, ended),
{
}

/// What the round outcome must be, by mode.
pub open spec fn round_victory_spec(l: LobbyV, w: Seq<Seq<char>>, lo: Seq<Seq<char>>) -> bool {
    if l.lobby_options.gamemode == GameMode::CoopSurvival {
        let total = spec_total_score(l.players, l.players.len() as int);
        if score_lt(l.boss_chips, total) {
            w =~= ids_where(l.players, |p: (Seq<char>, EntryV)| true) && lo =~= Seq::<
                Seq<char>,
            >::empty()
        } else {
            w =~= Seq::<Seq<char>>::empty() && lo =~= ids_where(
                l.players,
                |p: (Seq<char>, EntryV)| true,
            )
        }
    } else if l.lobby_options.gamemode == GameMode::Clash {
        &&& w =~= ids_where(l.players, |p: (Seq<char>, EntryV)| is_top_in_game(l.players, p))
        &&& ids_unique_seq(lo)
        &&& forall|x: Seq<char>|
            #[trigger] lo.contains(x) <==> (exists|i: int|
                0 <= i < l.players.len() && (#[trigger] l.players[i]).0 == x
                    && l.players[i].1.lobby_state.in_game && !is_top_in_game(
                    l.players,
                    l.players[i],
                ))
        &&& forall|a: int, b: int|
            0 <= a < b < lo.len() ==> !score_lt(
                entry_of(l.players, #[trigger] lo[a]).game_state.score,
                entry_of(l.players, #[trigger] lo[b]).game_state.score,
            )
    } else if l.lobby_options.gamemode == GameMode::Survival {
        let maxb = max_blind(l.players);
        w =~= ids_where(
            l.players,
            |p: (Seq<char>, EntryV)| p.1.game_state.furthest_blind == maxb,
        ) && lo =~= ids_where(
            l.players,
            |p: (Seq<char>, EntryV)| p.1.game_state.furthest_blind != maxb,
        )
    } else {
        if l.players.len() < 2 {
            w =~= Seq::<Seq<char>>::empty() && lo =~= Seq::<Seq<char>>::empty()
        } else {
            w =~= ids_where(l.players, |p: (Seq<char>, EntryV)| is_top_all(l.players, p)) && lo
                =~= ids_where(l.players, |p: (Seq<char>, EntryV)| !is_top_all(l.players, p))
        }
    }
}

/// Every seated player's lives stay within the configured starting lives.
pub open spec fn lives_bounded(l: LobbyV) -> bool {
    forall|i: int|
        0 <= i < l.players.len() ==> (#[trigger] l.players[i]).1.game_state.lives
            <= l.lobby_options.starting_lives
}

impl Lobby {
    /// A fresh lobby under the mode's defaults, carrying the chosen ruleset.
    pub fn new(code: String, ruleset: String, game_mode: GameMode) -> (r: Lobby)
        ensures
            lobby_wf(r@),
            lives_bounded(r@),
            r@.code == code@,
            !r@.started,
            r@.stage == 0,
            r@.boss_chips == TnView::Regular(DecNum::Num { mant: 0, exp: 0 }),
            r@.lobby_options == (LobbyOptionsV {
                ruleset: ruleset@,
                ..crate::game_mode::spec_default_options(game_mode)
            }),
            r@.players.len() == 0,
            r@.max_players == crate::game_mode::spec_max_players(game_mode),
    {
        let mut options = game_mode.get_default_options();
        options.ruleset = ruleset;
        let r = Lobby {
            code,
            started: false,
            boss_chips: TalismanNumber::Regular(DecNum::Num { mant: 0, exp: 0 }),
            lobby_options: options,
            players: Vec::new(),
            stage: 0,
            max_players: game_mode.get_max_players(),
        };
        proof {
            assert(r@.players =~= Seq::<(Seq<char>, EntryV)>::empty());
        }
        r
    }

    /// The seat index of a player id, if seated.
    pub fn find_player(&self, player_id: &str) -> (r: Option<usize>)
        ensures
            r matches Some(i) ==> i < self@.players.len() && self@.players[i as int].0
                == player_id@,
            r is None ==> forall|i: int|
                0 <= i < self@.players.len() ==> (#[trigger] self@.players[i]).0 != player_id@,
    {
        let mut i: usize = 0;
        while i < self.players.len()
            invariant
                i <= self.players@.len(),
                self@.players.len() == self.players@.len(),
                forall|j: int| 0 <= j < i ==> (#[trigger] self@.players[j]).0 != player_id@,
            decreases self.players@.len() - i,
        {
            proof {
                assert(self@.players[i as int].0 == self.players@[i as int].0@);
            }
            if crate::talisman_number::str_eq_literal(self.players[i].0.as_str(), player_id) {
                return Some(i);
            }
            i = i + 1;
        }
        None
    }

    /// How many players are seated.
    pub fn player_count(&self) -> (n: usize)
        ensures
            n == self@.players.len(),
    {
        self.players.len()
    }

    /// Whether the lobby is at its player cap.
    pub fn is_full(&self) -> (r: bool)
        ensures
            r == (self@.players.len() >= self@.max_players),
    {
        self.players.len() >= self.max_players as usize
    }

    /// Whether the named player is seated and holds the host flag.
    pub fn is_player_host(&self, player_id: &str) -> (r: bool)
        requires
            players_unique(self@.players),
        ensures
            r == exists|i: int|
                0 <= i < self@.players.len() && (#[trigger] self@.players[i]).0 == player_id@
                    && self@.players[i].1.lobby_state.is_host,
    {
        match self.find_player(player_id) {
            Some(i) => {
                let h = self.players[i].1.lobby_state.is_host;
                proof {
                    if h {
                        assert(self@.players[i as int].0 == player_id@
                            && self@.players[i as int].1.lobby_state.is_host);
                    } else {
                        assert forall|j: int|
                            0 <= j < self@.players.len() && (#[trigger] self@.players[j]).0
                                == player_id@ implies !self@.players[j].1.lobby_state.is_host by {
                            if j != i {
                                assert(self@.players[j].0 != self@.players[i as int].0);
                            }
                        }
                    }
                }
                h
            },
            None => false,
        }
    }

    /// Seat a new player. The first player of an empty lobby becomes its
    /// host and starts ready; everyone starts with the configured lives.
    pub fn add_player(&mut self, player_id: String, client_profile: ClientProfile) -> (r:
        ClientLobbyEntry)
        requires
            lobby_wf(old(self)@),
            old(self)@.players.len() < old(self)@.max_players,
            forall|i: int|
                0 <= i < old(self)@.players.len() ==> (#[trigger] old(self)@.players[i]).0
                    != player_id@,
        ensures
            lobby_wf(final(self)@),
            final(self)@ == (LobbyV {
                players: old(self)@.players.push((player_id@, r@)),
                ..old(self)@
            }),
            r@.profile == client_profile@,
            r@.lobby_state.is_host == (old(self)@.players.len() == 0),
            r@.lobby_state.is_ready == (old(self)@.players.len() == 0),
            !r@.lobby_state.in_game,
            !r@.lobby_state.first_ready,
            !r@.lobby_state.is_cached,
            r@.lobby_state.current_lobby matches Some(c) && c == old(self)@.code,
            r@.game_state == (GameStateV {
                lives: old(self)@.lobby_options.starting_lives,
                ..spec_default_game_state()
            }),
            lives_bounded(old(self)@) ==> lives_bounded(final(self)@),
    {
        let is_host = self.players.len() == 0;
        let entry = ClientLobbyEntry::new(
            client_profile,
            self.code.clone(),
            is_host,
            self.lobby_options.starting_lives,
        );
        let ghost before = self@.players;
        let copy = entry.duplicate();
        self.players.push((player_id, entry));
        proof {
            assert(self@.players =~= before.push((player_id@, copy@)));
            lemma_host_count_push(before, self@.players.last());
        }
        copy
    }

    /// Unseat a player, handing back the seat if it existed.
    pub fn remove_player(&mut self, player_id: &str) -> (r: Option<ClientLobbyEntry>)
        requires
            lobby_wf(old(self)@),
        ensures
            players_unique(final(self)@.players),
            final(self)@.players.len() <= final(self)@.max_players,
            tn_wf(final(self)@.boss_chips),
            forall|i: int|
                0 <= i < final(self)@.players.len() ==> crate::lobby::game_state::game_state_wf(
                    (#[trigger] final(self)@.players[i]).1.game_state,
                ),
            0 <= final(self)@.stage,
            (r matches Some(e) ==> exists|i: int|
                0 <= i < old(self)@.players.len() && (#[trigger] old(self)@.players[i]) == (
                player_id@,
                e@,
                ) && final(self)@ == (LobbyV {
                    players: old(self)@.players.remove(i),
                    ..old(self)@
                }) && host_count(final(self)@.players) == (if e@.lobby_state.is_host {
                    0int
                } else {
                    1int
                })),
            (r is None ==> final(self)@ == old(self)@ && (forall|i: int|
                0 <= i < old(self)@.players.len() ==> (#[trigger] old(self)@.players[i]).0
                    != player_id@)),
            lives_bounded(old(self)@) ==> lives_bounded(final(self)@),
    {
        match self.find_player(player_id) {
            Some(i) => {
                let (_, entry) = self.players.remove(i);
                proof {
                    assert(self@.players =~= old(self)@.players.remove(i as int));
                    lemma_players_remove(old(self)@.players, i as int);
                    if entry@.lobby_state.is_host {
                        lemma_host_count_remove(old(self)@.players, i as int);
                    } else {
                        lemma_host_count_remove(old(self)@.players, i as int);
                    }
                }
                Some(entry)
            },
            None => None,
        }
    }

    /// Hand the host flag (and readiness) to the first seated player.
    pub fn promote_new_host(&mut self) -> (r: Option<String>)
        requires
            players_unique(old(self)@.players),
            host_count(old(self)@.players) == 0,
        ensures
            old(self)@.players.len() == 0 ==> r is None && final(self)@ == old(self)@,
            old(self)@.players.len() > 0 ==> (r matches Some(id) && id@ == old(
                self,
            )@.players[0].0 && final(self)@ == (LobbyV {
                players: old(self)@.players.update(
                    0,
                    (
                        old(self)@.players[0].0,
                        EntryV {
                            lobby_state: LobbyStateV {
                                is_host: true,
                                is_ready: true,
                                ..old(self)@.players[0].1.lobby_state
                            },
                            ..old(self)@.players[0].1
                        },
                    ),
                ),
                ..old(self)@
            }) && host_count(final(self)@.players) == 1),
    {
        if self.players.len() == 0 {
            return None;
        }
        self.players[0].1.lobby_state.is_host = true;
        self.players[0].1.lobby_state.is_ready = true;
        let id = self.players[0].0.clone();
        proof {
            let after = self@.players;
            let b = old(self)@.players;
            lemma_host_count_at(b, 0);
            assert(after[0].1 == (EntryV {
                lobby_state: LobbyStateV { is_host: true, is_ready: true, ..b[0].1.lobby_state },
                ..b[0].1
            }));
            assert(after[0].0 == b[0].0);
            assert(after =~= b.update(0, (b[0].0, after[0].1)));
            lemma_host_count_update(b, 0, after[0]);
            assert(self@ == (LobbyV { players: after, ..old(self)@ }));
        }
        Some(id)
    }

    /// Set one player's ready flag; unknown ids are ignored.
    pub fn set_player_ready(&mut self, player_id: &str, is_ready: bool)
        requires
            lobby_wf(old(self)@),
        ensures
            lobby_wf(final(self)@),
            lives_bounded(old(self)@) ==> lives_bounded(final(self)@),
            (exists|i: int|
                0 <= i < old(self)@.players.len() && (#[trigger] old(self)@.players[i]).0
                    == player_id@) ==> (exists|i: int|
                {
                    &&& 0 <= i < old(self)@.players.len()
                    &&& (#[trigger] old(self)@.players[i]).0 == player_id@
                    &&& final(self)@ == (LobbyV {
                        players: old(self)@.players.update(
                            i,
                            (
                                old(self)@.players[i].0,
                                entry_with_ready(old(self)@.players[i].1, is_ready),
                            ),
                        ),
                        ..old(self)@
                    })
                }),
            (forall|i: int|
                0 <= i < old(self)@.players.len() ==> (#[trigger] old(self)@.players[i]).0
                    != player_id@) ==> final(self)@ == old(self)@,
    {
        match self.find_player(player_id) {
            Some(i) => {
                self.players[i].1.lobby_state.is_ready = is_ready;
                proof {
                    let b = old(self)@.players;
                    assert(self@.players =~= b.update(
                        i as int,
                        (b[i as int].0, entry_with_ready(b[i as int].1, is_ready)),
                    ));
                    lemma_host_count_update(b, i as int, self@.players[i as int]);
                }
            },
            None => {},
        }
    }

    /// Clear every ready flag.
    pub fn reset_ready_states(&mut self)
        requires
            lobby_wf(old(self)@),
        ensures
            lobby_wf(final(self)@),
            lives_bounded(old(self)@) ==> lives_bounded(final(self)@),
            final(self)@ == (LobbyV {
                players: old(self)@.players.map_values(
                    |p: (Seq<char>, EntryV)| (p.0, entry_with_ready(p.1, false)),
                ),
                ..old(self)@
            }),
    {
        let ghost target = old(self)@.players.map_values(
            |p: (Seq<char>, EntryV)| (p.0, entry_with_ready(p.1, false)),
        );
        let mut i: usize = 0;
        while i < self.players.len()
            invariant
                i <= self.players@.len(),
                self@.players.len() == old(self)@.players.len(),
                target == old(self)@.players.map_values(
                    |p: (Seq<char>, EntryV)| (p.0, entry_with_ready(p.1, false)),
                ),
                forall|j: int| 0 <= j < i ==> self@.players[j] == target[j],
                forall|j: int|
                    i <= j < self@.players.len() ==> self@.players[j] == old(self)@.players[j],
                self.code@ == old(self).code@,
                self.started == old(self).started,
                self.boss_chips@ == old(self).boss_chips@,
                self.lobby_options@ == old(self).lobby_options@,
                self.stage == old(self).stage,
                self.max_players == old(self).max_players,
            decreases self.players@.len() - i,
        {
            self.players[i].1.lobby_state.is_ready = false;
            i = i + 1;
        }
        proof {
            assert(self@.players =~= target);
            lemma_host_count_pointwise(old(self)@.players, self@.players);
        }
    }

    /// Set every player's ready flag from the host flag: host-only ready.
    pub fn reset_ready_states_to_host_only(&mut self)
        requires
            lobby_wf(old(self)@),
        ensures
            lobby_wf(final(self)@),
            lives_bounded(old(self)@) ==> lives_bounded(final(self)@),
            final(self)@ == (LobbyV {
                players: old(self)@.players.map_values(
                    |p: (Seq<char>, EntryV)| (p.0, entry_with_ready(p.1, p.1.lobby_state.is_host)),
                ),
                ..old(self)@
            }),
    {
        let ghost target = old(self)@.players.map_values(
            |p: (Seq<char>, EntryV)| (p.0, entry_with_ready(p.1, p.1.lobby_state.is_host)),
        );
        let mut i: usize = 0;
        while i < self.players.len()
            invariant
                i <= self.players@.len(),
                self@.players.len() == old(self)@.players.len(),
                target == old(self)@.players.map_values(
                    |p: (Seq<char>, EntryV)| (p.0, entry_with_ready(p.1, p.1.lobby_state.is_host)),
                ),
                forall|j: int| 0 <= j < i ==> self@.players[j] == target[j],
                forall|j: int|
                    i <= j < self@.players.len() ==> self@.players[j] == old(self)@.players[j],
                self.code@ == old(self).code@,
                self.started == old(self).started,
                self.boss_chips@ == old(self).boss_chips@,
                self.lobby_options@ == old(self).lobby_options@,
                self.stage == old(self).stage,
                self.max_players == old(self).max_players,
            decreases self.players@.len() - i,
        {
            let h = self.players[i].1.lobby_state.is_host;
            self.players[i].1.lobby_state.is_ready = h;
            i = i + 1;
        }
        proof {
            assert(self@.players =~= target);
            lemma_host_count_pointwise(old(self)@.players, self@.players);
        }
    }

    /// Each seated id with its ready flag, in join order.
    pub fn collect_ready_states(&self) -> (r: Vec<(String, bool)>)
        ensures
            r@.map_values(|p: (String, bool)| (p.0@, p.1)) =~= self@.players.map_values(
                |p: (Seq<char>, EntryV)| (p.0, p.1.lobby_state.is_ready),
            ),
    {
        let mut r: Vec<(String, bool)> = Vec::new();
        let mut i: usize = 0;
        while i < self.players.len()
            invariant
                i <= self.players@.len(),
                r@.map_values(|p: (String, bool)| (p.0@, p.1)) =~= self@.players.take(
                    i as int,
                ).map_values(|p: (Seq<char>, EntryV)| (p.0, p.1.lobby_state.is_ready)),
            decreases self.players@.len() - i,
        {
            let ghost before = r@.map_values(|p: (String, bool)| (p.0@, p.1));
            let id = self.players[i].0.clone();
            let ready = self.players[i].1.lobby_state.is_ready;
            r.push((id, ready));
            proof {
                assert(r@.map_values(|p: (String, bool)| (p.0@, p.1)) =~= before.push(
                    (self@.players[i as int].0, self@.players[i as int].1.lobby_state.is_ready),
                ));
            }
            i = i + 1;
        }
        proof {
            assert(self@.players.take(i as int) =~= self@.players);
        }
        r
    }

    /// Each seated id with its in-game flag, in join order.
    pub fn get_in_game_statuses(&self) -> (r: Vec<(String, bool)>)
        ensures
            r@.map_values(|p: (String, bool)| (p.0@, p.1)) =~= self@.players.map_values(
                |p: (Seq<char>, EntryV)| (p.0, p.1.lobby_state.in_game),
            ),
    {
        let mut r: Vec<(String, bool)> = Vec::new();
        let mut i: usize = 0;
        while i < self.players.len()
            invariant
                i <= self.players@.len(),
                r@.map_values(|p: (String, bool)| (p.0@, p.1)) =~= self@.players.take(
                    i as int,
                ).map_values(|p: (Seq<char>, EntryV)| (p.0, p.1.lobby_state.in_game)),
            decreases self.players@.len() - i,
        {
            let ghost before = r@.map_values(|p: (String, bool)| (p.0@, p.1));
            let id = self.players[i].0.clone();
            let flag = self.players[i].1.lobby_state.in_game;
            r.push((id, flag));
            proof {
                assert(r@.map_values(|p: (String, bool)| (p.0@, p.1)) =~= before.push(
                    (self@.players[i as int].0, self@.players[i as int].1.lobby_state.in_game),
                ));
            }
            i = i + 1;
        }
        proof {
            assert(self@.players.take(i as int) =~= self@.players);
        }
        r
    }

    /// Zero every score and restore each player's hand and discard budgets.
    pub fn reset_scores(&mut self)
        requires
            lobby_wf(old(self)@),
        ensures
            lobby_wf(final(self)@),
            lives_bounded(old(self)@) ==> lives_bounded(final(self)@),
            final(self)@ == (LobbyV {
                players: old(self)@.players.map_values(
                    |p: (Seq<char>, EntryV)| (p.0, entry_scores_reset(p.1)),
                ),
                ..old(self)@
            }),
    {
        let ghost target = old(self)@.players.map_values(
            |p: (Seq<char>, EntryV)| (p.0, entry_scores_reset(p.1)),
        );
        let mut i: usize = 0;
        while i < self.players.len()
            invariant
                i <= self.players@.len(),
                self@.players.len() == old(self)@.players.len(),
                target == old(self)@.players.map_values(
                    |p: (Seq<char>, EntryV)| (p.0, entry_scores_reset(p.1)),
                ),
                forall|j: int| 0 <= j < i ==> self@.players[j] == target[j],
                forall|j: int|
                    i <= j < self@.players.len() ==> self@.players[j] == old(self)@.players[j],
                self.code@ == old(self).code@,
                self.started == old(self).started,
                self.boss_chips@ == old(self).boss_chips@,
                self.lobby_options@ == old(self).lobby_options@,
                self.stage == old(self).stage,
                self.max_players == old(self).max_players,
            decreases self.players@.len() - i,
        {
            self.players[i].1.game_state.score = TalismanNumber::Regular(
                DecNum::Num { mant: 0, exp: 0 },
            );
            let hm = self.players[i].1.game_state.hands_max;
            self.players[i].1.game_state.hands_left = hm;
            let dm = self.players[i].1.game_state.discards_max;
            self.players[i].1.game_state.discards_left = dm;
            i = i + 1;
        }
        proof {
            assert(self@.players =~= target);
            lemma_host_count_pointwise(old(self)@.players, self@.players);
        }
    }

    /// Deal everyone back in or out: ready off, fresh game state with the
    /// configured lives, and the in-game flag as given.
    pub fn reset_game_states(&mut self, in_game: bool)
        requires
            lobby_wf(old(self)@),
        ensures
            lobby_wf(final(self)@),
            lives_bounded(final(self)@),
            final(self)@ == (LobbyV {
                players: old(self)@.players.map_values(
                    |p: (Seq<char>, EntryV)| (
                        p.0,
                        entry_dealt(p.1, old(self)@.lobby_options.starting_lives, in_game),
                    ),
                ),
                ..old(self)@
            }),
    {
        let ghost target = old(self)@.players.map_values(
            |p: (Seq<char>, EntryV)| (
                p.0,
                entry_dealt(p.1, old(self)@.lobby_options.starting_lives, in_game),
            ),
        );
        let mut i: usize = 0;
        while i < self.players.len()
            invariant
                i <= self.players@.len(),
                self@.players.len() == old(self)@.players.len(),
                target == old(self)@.players.map_values(
                    |p: (Seq<char>, EntryV)| (
                        p.0,
                        entry_dealt(p.1, old(self)@.lobby_options.starting_lives, in_game),
                    ),
                ),
                forall|j: int| 0 <= j < i ==> self@.players[j] == target[j],
                forall|j: int|
                    i <= j < self@.players.len() ==> self@.players[j] == old(self)@.players[j],
                self.code@ == old(self).code@,
                self.started == old(self).started,
                self.boss_chips@ == old(self).boss_chips@,
                self.lobby_options@ == old(self).lobby_options@,
                self.stage == old(self).stage,
                self.max_players == old(self).max_players,
            decreases self.players@.len() - i,
        {
            let lives = self.lobby_options.starting_lives;
            self.players[i].1.reset_for_game(lives);
            self.players[i].1.lobby_state.in_game = in_game;
            i = i + 1;
        }
        proof {
            assert(self@.players =~= target);
            lemma_host_count_pointwise(old(self)@.players, self@.players);
        }
    }

    /// The running total of every seated player's score, accumulated in join
    /// order.
    pub fn get_total_score(&self) -> (r: TalismanNumber)
        requires
            lobby_wf(self@),
        ensures
            r@ == spec_total_score(self@.players, self@.players.len() as int),
            tn_wf(r@),
    {
        let mut acc = TalismanNumber::Regular(DecNum::Num { mant: 0, exp: 0 });
        let mut i: usize = 0;
        while i < self.players.len()
            invariant
                i <= self.players@.len(),
                lobby_wf(self@),
                acc@ == spec_total_score(self@.players, i as int),
                tn_wf(acc@),
            decreases self.players@.len() - i,
        {
            proof {
                assert(crate::lobby::game_state::game_state_wf(
                    self@.players[i as int].1.game_state,
                ));
            }
            let next = match acc.add(&self.players[i].1.game_state.score) {
                Ok(v) => v,
                Err(_) => acc,
            };
            acc = next;
            i = i + 1;
        }
        acc
    }

    /// Whether every in-game player has exhausted their hands.
    pub fn all_players_done(&self) -> (r: bool)
        ensures
            r == all_done(self@.players),
    {
        let mut i: usize = 0;
        while i < self.players.len()
            invariant
                i <= self.players@.len(),
                forall|j: int|
                    0 <= j < i ==> ((#[trigger] self@.players[j]).1.lobby_state.in_game
                        ==> self@.players[j].1.game_state.hands_left == 0),
            decreases self.players@.len() - i,
        {
            if self.players[i].1.lobby_state.in_game && self.players[i].1.game_state.hands_left
                != 0 {
                proof {
                    assert(self@.players[i as int].1.lobby_state.in_game && self@.players[
                        i as int
                    ].1.game_state.hands_left != 0);
                }
                return false;
            }
            i = i + 1;
        }
        true
    }

    /// Whether any seated player has no lives left.
    pub fn is_someone_dead(&self) -> (r: bool)
        ensures
            r == someone_dead(self@.players),
    {
        let mut i: usize = 0;
        while i < self.players.len()
            invariant
                i <= self.players@.len(),
                forall|j: int| 0 <= j < i ==> (#[trigger] self@.players[j]).1.game_state.lives != 0,
            decreases self.players@.len() - i,
        {
            if self.players[i].1.game_state.lives == 0 {
                proof {
                    assert(self@.players[i as int].1.game_state.lives == 0);
                }
                return true;
            }
            i = i + 1;
        }
        false
    }

    /// How many seated players are in the running game.
    pub fn get_player_count_in_game(&self) -> (n: usize)
        ensures
            n == in_game_count(self@.players),
    {
        let mut count: usize = 0;
        let mut i: usize = 0;
        proof {
            lemma_in_game_count_bound(self@.players.take(0));
        }
        while i < self.players.len()
            invariant
                i <= self.players@.len(),
                count == in_game_count(self@.players.take(i as int)),
                count <= i,
            decreases self.players@.len() - i,
        {
            proof {
                assert(self@.players.take(i as int + 1).drop_last() =~= self@.players.take(
                    i as int,
                ));
                assert(self@.players.take(i as int + 1).last() == self@.players[i as int]);
            }
            if self.players[i].1.lobby_state.in_game {
                count = count + 1;
            }
            i = i + 1;
        }
        proof {
            assert(self@.players.take(i as int) =~= self@.players);
        }
        count
    }

    /// The largest furthest-blind over all seated players, zero when empty.
    pub fn get_max_furthest_blind(&self) -> (r: u32)
        ensures
            r == max_blind(self@.players),
            forall|i: int|
                0 <= i < self@.players.len() ==> (#[trigger] self@.players[i]).1.game_state
                    .furthest_blind <= r,
    {
        let mut best: u32 = 0;
        let mut i: usize = 0;
        while i < self.players.len()
            invariant
                i <= self.players@.len(),
                best == max_blind(self@.players.take(i as int)),
                forall|j: int|
                    0 <= j < i ==> (#[trigger] self@.players[j]).1.game_state.furthest_blind
                        <= best,
            decreases self.players@.len() - i,
        {
            proof {
                assert(self@.players.take(i as int + 1).drop_last() =~= self@.players.take(
                    i as int,
                ));
                assert(self@.players.take(i as int + 1).last() == self@.players[i as int]);
            }
            let b = self.players[i].1.game_state.furthest_blind;
            if b > best {
                best = b;
            }
            i = i + 1;
        }
        proof {
            assert(self@.players.take(i as int) =~= self@.players);
        }
        best
    }

    /// The ids whose seats satisfy the survival-winner rule (their furthest
    /// blind is the lobby maximum), then the rest, both in join order.
    pub fn get_survival_winners_losers(&self) -> (r: (Vec<String>, Vec<String>))
        ensures
            ({
                let maxb = max_blind(self@.players);
                &&& ids_views(r.0@) =~= ids_where(
                    self@.players,
                    |p: (Seq<char>, EntryV)| p.1.game_state.furthest_blind == maxb,
                )
                &&& ids_views(r.1@) =~= ids_where(
                    self@.players,
                    |p: (Seq<char>, EntryV)| p.1.game_state.furthest_blind != maxb,
                )
            }),
    {
        let maxb = self.get_max_furthest_blind();
        let mut winners: Vec<String> = Vec::new();
        let mut losers: Vec<String> = Vec::new();
        let ghost fw = |p: (Seq<char>, EntryV)| p.1.game_state.furthest_blind == max_blind(
            self@.players,
        );
        let ghost fl = |p: (Seq<char>, EntryV)| p.1.game_state.furthest_blind != max_blind(
            self@.players,
        );
        let mut i: usize = 0;
        while i < self.players.len()
            invariant
                i <= self.players@.len(),
                maxb == max_blind(self@.players),
                fw == (|p: (Seq<char>, EntryV)| p.1.game_state.furthest_blind == max_blind(
                    self@.players,
                )),
                fl == (|p: (Seq<char>, EntryV)| p.1.game_state.furthest_blind != max_blind(
                    self@.players,
                )),
                ids_views(winners@) =~= ids_where(self@.players.take(i as int), fw),
                ids_views(losers@) =~= ids_where(self@.players.take(i as int), fl),
            decreases self.players@.len() - i,
        {
            proof {
                assert(self@.players.take(i as int + 1).drop_last() =~= self@.players.take(
                    i as int,
                ));
                assert(self@.players.take(i as int + 1).last() == self@.players[i as int]);
            }
            let ghost wv = ids_views(winners@);
            let ghost lv = ids_views(losers@);
            let id = self.players[i].0.clone();
            if self.players[i].1.game_state.furthest_blind == maxb {
                winners.push(id);
                proof {
                    assert(ids_views(winners@) =~= wv.push(self@.players[i as int].0));
                }
            } else {
                losers.push(id);
                proof {
                    assert(ids_views(losers@) =~= lv.push(self@.players[i as int].0));
                }
            }
            i = i + 1;
        }
        proof {
            assert(self@.players.take(i as int) =~= self@.players);
        }
        (winners, losers)
    }

    /// The ids of players still holding lives, then the zero-life ids, both
    /// in join order: the standard game-end outcome.
    pub fn determine_game_end_results(&self) -> (r: (Vec<String>, Vec<String>))
        ensures
            ids_views(r.0@) =~= ids_where(
                self@.players,
                |p: (Seq<char>, EntryV)| p.1.game_state.lives > 0,
            ),
            ids_views(r.1@) =~= ids_where(
                self@.players,
                |p: (Seq<char>, EntryV)| !(p.1.game_state.lives > 0),
            ),
    {
        let ghost fw = |p: (Seq<char>, EntryV)| p.1.game_state.lives > 0;
        let ghost fl = |p: (Seq<char>, EntryV)| !(p.1.game_state.lives > 0);
        let mut winners: Vec<String> = Vec::new();
        let mut losers: Vec<String> = Vec::new();
        let mut i: usize = 0;
        while i < self.players.len()
            invariant
                i <= self.players@.len(),
                fw == (|p: (Seq<char>, EntryV)| p.1.game_state.lives > 0),
                fl == (|p: (Seq<char>, EntryV)| !(p.1.game_state.lives > 0)),
                ids_views(winners@) =~= ids_where(self@.players.take(i as int), fw),
                ids_views(losers@) =~= ids_where(self@.players.take(i as int), fl),
            decreases self.players@.len() - i,
        {
            proof {
                assert(self@.players.take(i as int + 1).drop_last() =~= self@.players.take(
                    i as int,
                ));
                assert(self@.players.take(i as int + 1).last() == self@.players[i as int]);
            }
            let ghost wv = ids_views(winners@);
            let ghost lv = ids_views(losers@);
            let id = self.players[i].0.clone();
            if self.players[i].1.game_state.lives > 0 {
                winners.push(id);
                proof {
                    assert(ids_views(winners@) =~= wv.push(self@.players[i as int].0));
                }
            } else {
                losers.push(id);
                proof {
                    assert(ids_views(losers@) =~= lv.push(self@.players[i as int].0));
                }
            }
            i = i + 1;
        }
        proof {
            assert(self@.players.take(i as int) =~= self@.players);
        }
        (winners, losers)
    }

    /// Whether the seat at the given index holds a maximal score over all
    /// seats.
    fn seat_is_top_all(&self, i: usize) -> (r: bool)
        requires
            lobby_wf(self@),
            i < self@.players.len(),
        ensures
            r == is_top_all(self@.players, self@.players[i as int]),
    {
        let mut j: usize = 0;
        while j < self.players.len()
            invariant
                j <= self.players@.len(),
                i < self@.players.len(),
                lobby_wf(self@),
                forall|k: int|
                    0 <= k < j ==> !score_lt(
                        self@.players[i as int].1.game_state.score,
                        (#[trigger] self@.players[k]).1.game_state.score,
                    ),
            decreases self.players@.len() - j,
        {
            proof {
                assert(crate::lobby::game_state::game_state_wf(
                    self@.players[i as int].1.game_state,
                ));
                assert(crate::lobby::game_state::game_state_wf(
                    self@.players[j as int].1.game_state,
                ));
            }
            let c = self.players[i].1.game_state.score.compare(
                &self.players[j].1.game_state.score,
            );
            if matches!(c, Ord3::Less) {
                return false;
            }
            j = j + 1;
        }
        true
    }

    /// Whether the seat at the given index is in the game and holds a
    /// maximal score over the in-game seats.
    fn seat_is_top_in_game(&self, i: usize) -> (r: bool)
        requires
            lobby_wf(self@),
            i < self@.players.len(),
        ensures
            r == is_top_in_game(self@.players, self@.players[i as int]),
    {
        if !self.players[i].1.lobby_state.in_game {
            return false;
        }
        let mut j: usize = 0;
        while j < self.players.len()
            invariant
                j <= self.players@.len(),
                i < self@.players.len(),
                lobby_wf(self@),
                self@.players[i as int].1.lobby_state.in_game,
                forall|k: int|
                    0 <= k < j && (#[trigger] self@.players[k]).1.lobby_state.in_game
                        ==> !score_lt(
                        self@.players[i as int].1.game_state.score,
                        self@.players[k].1.game_state.score,
                    ),
            decreases self.players@.len() - j,
        {
            proof {
                assert(crate::lobby::game_state::game_state_wf(
                    self@.players[i as int].1.game_state,
                ));
                assert(crate::lobby::game_state::game_state_wf(
                    self@.players[j as int].1.game_state,
                ));
            }
            if self.players[j].1.lobby_state.in_game {
                let c = self.players[i].1.game_state.score.compare(
                    &self.players[j].1.game_state.score,
                );
                if matches!(c, Ord3::Less) {
                    return false;
                }
            }
            j = j + 1;
        }
        true
    }

    /// The ids whose seats a per-seat test admits, in join order; the test is
    /// fixed by the mode flag: maximal over all seats, or in-game and
    /// maximal over in-game seats.
    fn collect_top(&self, in_game_only: bool) -> (r: Vec<String>)
        requires
            lobby_wf(self@),
        ensures
            !in_game_only ==> ids_views(r@) =~= ids_where(
                self@.players,
                |p: (Seq<char>, EntryV)| is_top_all(self@.players, p),
            ),
            in_game_only ==> ids_views(r@) =~= ids_where(
                self@.players,
                |p: (Seq<char>, EntryV)| is_top_in_game(self@.players, p),
            ),
    {
        let ghost fa = |p: (Seq<char>, EntryV)| is_top_all(self@.players, p);
        let ghost fg = |p: (Seq<char>, EntryV)| is_top_in_game(self@.players, p);
        let mut r: Vec<String> = Vec::new();
        let mut i: usize = 0;
        while i < self.players.len()
            invariant
                i <= self.players@.len(),
                lobby_wf(self@),
                fa == (|p: (Seq<char>, EntryV)| is_top_all(self@.players, p)),
                fg == (|p: (Seq<char>, EntryV)| is_top_in_game(self@.players, p)),
                !in_game_only ==> ids_views(r@) =~= ids_where(self@.players.take(i as int), fa),
                in_game_only ==> ids_views(r@) =~= ids_where(self@.players.take(i as int), fg),
            decreases self.players@.len() - i,
        {
            proof {
                assert(self@.players.take(i as int + 1).drop_last() =~= self@.players.take(
                    i as int,
                ));
                assert(self@.players.take(i as int + 1).last() == self@.players[i as int]);
            }
            let ghost rv = ids_views(r@);
            let keep = if in_game_only {
                self.seat_is_top_in_game(i)
            } else {
                self.seat_is_top_all(i)
            };
            if keep {
                let id = self.players[i].0.clone();
                r.push(id);
                proof {
                    assert(ids_views(r@) =~= rv.push(self@.players[i as int].0));
                }
            }
            i = i + 1;
        }
        proof {
            assert(self@.players.take(i as int) =~= self@.players);
        }
        r
    }

    /// The ids of the in-game seats that do not hold a top score, ordered by
    /// score from the highest down (ties keep join order).
    fn clash_losers(&self) -> (losers: Vec<String>)
        requires
            lobby_wf(self@),
        ensures
            losers@.len() <= self@.players.len(),
            ids_unique_seq(ids_views(losers@)),
            forall|x: Seq<char>|
                #[trigger] ids_views(losers@).contains(x) <==> (exists|i: int|
                    0 <= i < self@.players.len() && (#[trigger] self@.players[i]).0 == x
                        && self@.players[i].1.lobby_state.in_game && !is_top_in_game(
                        self@.players,
                        self@.players[i],
                    )),
            forall|a: int, b: int|
                0 <= a < b < losers@.len() ==> !score_lt(
                    entry_of(self@.players, #[trigger] ids_views(losers@)[a]).game_state.score,
                    entry_of(self@.players, #[trigger] ids_views(losers@)[b]).game_state.score,
                ),
    {
        let ghost ps = self@.players;
        let mut losers: Vec<String> = Vec::new();
        let mut i: usize = 0;
        while i < self.players.len()
            invariant
                i <= self.players@.len(),
                lobby_wf(self@),
                ps == self@.players,
                losers@.len() <= i,
                ids_unique_seq(ids_views(losers@)),
                forall|x: Seq<char>|
                    #[trigger] ids_views(losers@).contains(x) <==> (exists|k: int|
                        0 <= k < i && (#[trigger] ps[k]).0 == x && ps[k].1.lobby_state.in_game
                            && !is_top_in_game(ps, ps[k])),
                forall|a: int, b: int|
                    0 <= a < b < losers@.len() ==> !score_lt(
                        entry_of(ps, #[trigger] ids_views(losers@)[a]).game_state.score,
                        entry_of(ps, #[trigger] ids_views(losers@)[b]).game_state.score,
                    ),
                forall|a: int|
                    0 <= a < losers@.len() ==> tn_wf(
                        entry_of(ps, #[trigger] ids_views(losers@)[a]).game_state.score,
                    ),
                forall|a: int|
                    0 <= a < losers@.len() ==> seated(ps, #[trigger] ids_views(losers@)[a]),
            decreases self.players@.len() - i,
        {
            let in_game = self.players[i].1.lobby_state.in_game;
            let top = self.seat_is_top_in_game(i);
            if in_game && !top {
                let id = self.players[i].0.clone();
                let ghost x = ps[i as int].0;
                proof {
                    lemma_seat_index(ps, i as int);
                    assert(crate::lobby::game_state::game_state_wf(ps[i as int].1.game_state));
                    if ids_views(losers@).contains(x) {
                        let k = choose|k: int|
                            0 <= k < i && (#[trigger] ps[k]).0 == x && ps[k].1.lobby_state.in_game
                                && !is_top_in_game(ps, ps[k]);
                        assert(ps[k].0 == ps[i as int].0 && k != i);
                    }
                }
                let q = self.loser_insert_pos(&losers, i);
                let ghost before = ids_views(losers@);
                let ghost nsc = ps[i as int].1.game_state.score;
                losers.insert(q, id);
                proof {
                    assert(ids_views(losers@) =~= before.insert(q as int, x));
                    lemma_ids_insert(before, q as int, x);
                    let after = ids_views(losers@);
                    assert forall|y: Seq<char>| #[trigger] after.contains(y) implies (exists|
                        k: int,
                    |
                        0 <= k < i + 1 && (#[trigger] ps[k]).0 == y && ps[k].1.lobby_state.in_game
                            && !is_top_in_game(ps, ps[k])) by {
                        if y == x {
                            assert(ps[i as int].0 == y && ps[i as int].1.lobby_state.in_game
                                && !is_top_in_game(ps, ps[i as int]));
                        } else {
                            assert(before.contains(y));
                            let k = choose|k: int|
                                0 <= k < i && (#[trigger] ps[k]).0 == y
                                    && ps[k].1.lobby_state.in_game && !is_top_in_game(ps, ps[k]);
                            assert(ps[k].0 == y && ps[k].1.lobby_state.in_game && !is_top_in_game(
                                ps,
                                ps[k],
                            ));
                        }
                    }
                    assert forall|y: Seq<char>|
                        (exists|k: int|
                            0 <= k < i + 1 && (#[trigger] ps[k]).0 == y
                                && ps[k].1.lobby_state.in_game && !is_top_in_game(
                                ps,
                                ps[k],
                            )) implies #[trigger] after.contains(y) by {
                        let k = choose|k: int|
                            0 <= k < i + 1 && (#[trigger] ps[k]).0 == y
                                && ps[k].1.lobby_state.in_game && !is_top_in_game(ps, ps[k]);
                        if k < i {
                            assert(before.contains(y));
                        } else {
                            assert(y == x);
                        }
                    }
                    assert forall|a: int, b: int| 0 <= a < b < after.len() implies !score_lt(
                        entry_of(ps, #[trigger] after[a]).game_state.score,
                        entry_of(ps, #[trigger] after[b]).game_state.score,
                    ) by {
                        let sa = entry_of(ps, after[a]).game_state.score;
                        let sb = entry_of(ps, after[b]).game_state.score;
                        if a < q && b < q {
                            assert(after[a] == before[a] && after[b] == before[b]);
                        } else if a < q && b == q {
                            assert(after[a] == before[a] && after[b] == x);
                            assert(entry_of(ps, x).game_state.score == nsc);
                            assert(!score_lt(entry_of(ps, before[a]).game_state.score, nsc));
                        } else if a < q && b > q {
                            assert(after[a] == before[a] && after[b] == before[b - 1]);
                        } else if a == q {
                            assert(after[b] == before[b - 1]);
                            let sb0 = entry_of(ps, before[b - 1]).game_state.score;
                            assert(score_lt(sb0, nsc));
                            assert(entry_of(ps, x).game_state.score == nsc);
                            crate::talisman_number::lemma_score_order_total(nsc, sb0);
                        } else {
                            assert(after[a] == before[a - 1] && after[b] == before[b - 1]);
                        }
                    }
                    assert forall|a: int| 0 <= a < after.len() implies tn_wf(
                        entry_of(ps, #[trigger] after[a]).game_state.score,
                    ) && seated(ps, after[a]) by {
                        if a == q {
                            assert(after[a] == x);
                            assert(entry_of(ps, x).game_state.score == nsc);
                            assert(crate::lobby::game_state::game_state_wf(
                                ps[i as int].1.game_state,
                            ));
                            assert(ps[i as int].0 == x);
                        } else if a < q {
                            assert(after[a] == before[a]);
                        } else {
                            assert(after[a] == before[a - 1]);
                        }
                    }
                }
            }
            i = i + 1;
        }
        losers
    }

    /// The first position in the descending loser list whose score falls
    /// strictly below the new seat's.
    fn loser_insert_pos(&self, losers: &Vec<String>, i: usize) -> (q: usize)
        requires
            lobby_wf(self@),
            i < self@.players.len(),
            forall|a: int, b: int|
                0 <= a < b < losers@.len() ==> !score_lt(
                    entry_of(self@.players, #[trigger] ids_views(losers@)[a]).game_state.score,
                    entry_of(self@.players, #[trigger] ids_views(losers@)[b]).game_state.score,
                ),
            forall|a: int|
                0 <= a < losers@.len() ==> tn_wf(
                    entry_of(self@.players, #[trigger] ids_views(losers@)[a]).game_state.score,
                ),
            forall|a: int|
                0 <= a < losers@.len() ==> seated(self@.players, #[trigger] ids_views(losers@)[a]),
        ensures
            q <= losers@.len(),
            forall|t: int|
                0 <= t < q ==> !score_lt(
                    entry_of(self@.players, #[trigger] ids_views(losers@)[t]).game_state.score,
                    self@.players[i as int].1.game_state.score,
                ),
            forall|t: int|
                q <= t < losers@.len() ==> score_lt(
                    entry_of(self@.players, #[trigger] ids_views(losers@)[t]).game_state.score,
                    self@.players[i as int].1.game_state.score,
                ),
    {
        let ghost ps = self@.players;
        let mut q: usize = 0;
        while q < losers.len()
            invariant
                q <= losers@.len(),
                lobby_wf(self@),
                ps == self@.players,
                i < ps.len(),
                forall|a: int, b: int|
                    0 <= a < b < losers@.len() ==> !score_lt(
                        entry_of(ps, #[trigger] ids_views(losers@)[a]).game_state.score,
                        entry_of(ps, #[trigger] ids_views(losers@)[b]).game_state.score,
                    ),
                forall|a: int|
                    0 <= a < losers@.len() ==> tn_wf(
                        entry_of(ps, #[trigger] ids_views(losers@)[a]).game_state.score,
                    ),
                forall|a: int|
                    0 <= a < losers@.len() ==> seated(ps, #[trigger] ids_views(losers@)[a]),
                forall|t: int|
                    0 <= t < q ==> !score_lt(
                        entry_of(ps, #[trigger] ids_views(losers@)[t]).game_state.score,
                        ps[i as int].1.game_state.score,
                    ),
            decreases losers@.len() - q,
        {
            let j = match self.find_player(losers[q].as_str()) {
                Some(j) => j,
                None => {
                    proof {
                        assert(seated(ps, ids_views(losers@)[q as int]));
                        let w = choose|w: int|
                            0 <= w < ps.len() && (#[trigger] ps[w]).0 == ids_views(
                                losers@,
                            )[q as int];
                        assert(ps[w].0 == ids_views(losers@)[q as int]);
                        assert(false);
                    }
                    0
                },
            };
            proof {
                lemma_seat_index(ps, j as int);
                assert(entry_of(ps, ids_views(losers@)[q as int]) == ps[j as int].1);
                assert(crate::lobby::game_state::game_state_wf(ps[i as int].1.game_state));
                assert(crate::lobby::game_state::game_state_wf(ps[j as int].1.game_state));
            }
            let c = self.players[j].1.game_state.score.compare(
                &self.players[i].1.game_state.score,
            );
            if matches!(c, Ord3::Less) {
                proof {
                    let n = ps[i as int].1.game_state.score;
                    assert(score_lt(
                        entry_of(ps, ids_views(losers@)[q as int]).game_state.score,
                        n,
                    ));
                    assert forall|t: int| q <= t < losers@.len() implies score_lt(
                        entry_of(ps, #[trigger] ids_views(losers@)[t]).game_state.score,
                        n,
                    ) by {
                        if t > q {
                            let a = entry_of(ps, ids_views(losers@)[t]).game_state.score;
                            let b = entry_of(ps, ids_views(losers@)[q as int]).game_state.score;
                            assert(!score_lt(b, a));
                            crate::talisman_number::lemma_score_order_total(a, b);
                            if score_lt(a, b) {
                                crate::talisman_number::lemma_score_lt_trans(a, b, n);
                            } else {
                                crate::talisman_number::lemma_score_eqv_lt_trans(a, b, n);
                            }
                        }
                    }
                }
                return q;
            }
            q = q + 1;
        }
        q
    }

    /// The round outcome for the lobby's mode: the winning ids and the
    /// losing ids. Cooperative survival wins or loses as one team against
    /// the boss target; Clash takes the top in-game scores and ranks the
    /// rest; Survival goes by furthest blind; the standard modes take the
    /// top scores, and need at least two players to judge at all.
    pub fn check_round_victory(&self) -> (r: (Vec<String>, Vec<String>))
        requires
            lobby_wf(self@),
        ensures
            round_victory_spec(self@, ids_views(r.0@), ids_views(r.1@)),
            r.1@.len() <= self@.players.len(),
    {
        let mode = self.lobby_options.gamemode;
        match mode {
            GameMode::CoopSurvival => {
                let total = self.get_total_score();
                let c = total.compare(&self.boss_chips);
                if matches!(c, Ord3::Greater) {
                    let ids = self.all_ids();
                    let empty: Vec<String> = Vec::new();
                    proof {
                        lemma_ids_where_len(self@.players, |p: (Seq<char>, EntryV)| true);
                        assert(ids_views(empty@) =~= Seq::<Seq<char>>::empty());
                    }
                    (ids, empty)
                } else {
                    let ids = self.all_ids();
                    let empty: Vec<String> = Vec::new();
                    proof {
                        lemma_ids_where_len(self@.players, |p: (Seq<char>, EntryV)| true);
                        assert(ids_views(empty@) =~= Seq::<Seq<char>>::empty());
                    }
                    (empty, ids)
                }
            },
            GameMode::Clash => {
                let winners = self.collect_top(true);
                let losers = self.clash_losers();
                (winners, losers)
            },
            GameMode::Survival => {
                let r = self.get_survival_winners_losers();
                proof {
                    let maxb = max_blind(self@.players);
                    lemma_ids_where_len(
                        self@.players,
                        |p: (Seq<char>, EntryV)| p.1.game_state.furthest_blind == maxb,
                    );
                    lemma_ids_where_len(
                        self@.players,
                        |p: (Seq<char>, EntryV)| p.1.game_state.furthest_blind != maxb,
                    );
                }
                r
            },
            _ => {
                if self.players.len() < 2 {
                    let empty1: Vec<String> = Vec::new();
                    let empty2: Vec<String> = Vec::new();
                    proof {
                        assert(ids_views(empty1@) =~= Seq::<Seq<char>>::empty());
                        assert(ids_views(empty2@) =~= Seq::<Seq<char>>::empty());
                    }
                    (empty1, empty2)
                } else {
                    let winners = self.collect_top(false);
                    let losers = self.not_top_ids();
                    (winners, losers)
                }
            },
        }
    }

    /// Every seated id, in join order.
    fn all_ids(&self) -> (r: Vec<String>)
        ensures
            ids_views(r@) =~= ids_where(self@.players, |p: (Seq<char>, EntryV)| true),
            r@.len() <= self@.players.len(),
    {
        let ghost f = |p: (Seq<char>, EntryV)| true;
        let mut r: Vec<String> = Vec::new();
        let mut i: usize = 0;
        while i < self.players.len()
            invariant
                i <= self.players@.len(),
                r@.len() <= i,
                f == (|p: (Seq<char>, EntryV)| true),
                ids_views(r@) =~= ids_where(self@.players.take(i as int), f),
            decreases self.players@.len() - i,
        {
            proof {
                assert(self@.players.take(i as int + 1).drop_last() =~= self@.players.take(
                    i as int,
                ));
                assert(self@.players.take(i as int + 1).last() == self@.players[i as int]);
            }
            let ghost rv = ids_views(r@);
            let id = self.players[i].0.clone();
            r.push(id);
            proof {
                assert(ids_views(r@) =~= rv.push(self@.players[i as int].0));
            }
            i = i + 1;
        }
        proof {
            assert(self@.players.take(i as int) =~= self@.players);
        }
        r
    }

    /// The ids of the seats whose score is not maximal, in join order.
    fn not_top_ids(&self) -> (r: Vec<String>)
        requires
            lobby_wf(self@),
        ensures
            ids_views(r@) =~= ids_where(
                self@.players,
                |p: (Seq<char>, EntryV)| !is_top_all(self@.players, p),
            ),
            r@.len() <= self@.players.len(),
    {
        let ghost f = |p: (Seq<char>, EntryV)| !is_top_all(self@.players, p);
        let mut r: Vec<String> = Vec::new();
        let mut i: usize = 0;
        while i < self.players.len()
            invariant
                i <= self.players@.len(),
                r@.len() <= i,
                lobby_wf(self@),
                f == (|p: (Seq<char>, EntryV)| !is_top_all(self@.players, p)),
                ids_views(r@) =~= ids_where(self@.players.take(i as int), f),
            decreases self.players@.len() - i,
        {
            proof {
                assert(self@.players.take(i as int + 1).drop_last() =~= self@.players.take(
                    i as int,
                ));
                assert(self@.players.take(i as int + 1).last() == self@.players[i as int]);
            }
            let ghost rv = ids_views(r@);
            let top = self.seat_is_top_all(i);
            if !top {
                let id = self.players[i].0.clone();
                r.push(id);
                proof {
                    assert(ids_views(r@) =~= rv.push(self@.players[i as int].0));
                }
            }
            i = i + 1;
        }
        proof {
            assert(self@.players.take(i as int) =~= self@.players);
        }
        r
    }

    /// Take lives from the round's losers, saturating at zero. The whole
    /// team pays in cooperative survival; in Clash the loser ranked `i` pays
    /// the stage's base damage plus `i + 1` and the stage advances; the
    /// standard modes cost each loser one life. An empty loser list changes
    /// nothing.
    pub fn apply_life_loss(&mut self, losers: &Vec<String>)
        requires
            lobby_wf(old(self)@),
            ids_unique_seq(ids_views(losers@)),
            losers@.len() <= 255,
            forall|a: int|
                0 <= a < losers@.len() ==> seated(old(self)@.players, #[trigger] ids_views(
                    losers@,
                )[a]),
        ensures
            lobby_wf(final(self)@),
            lives_bounded(old(self)@) ==> lives_bounded(final(self)@),
            final(self)@.code == old(self)@.code,
            final(self)@.started == old(self)@.started,
            final(self)@.boss_chips == old(self)@.boss_chips,
            final(self)@.lobby_options == old(self)@.lobby_options,
            final(self)@.max_players == old(self)@.max_players,
            losers@.len() == 0 ==> final(self)@ == old(self)@,
            final(self)@.players.len() == old(self)@.players.len(),
            forall|k: int|
                0 <= k < old(self)@.players.len() ==> (#[trigger] final(self)@.players[k]) == (
                old(self)@.players[k].0,
                EntryV {
                    game_state: GameStateV {
                        lives: loss_spec(old(self)@, ids_views(losers@), k),
                        ..old(self)@.players[k].1.game_state
                    },
                    ..old(self)@.players[k].1
                },
            ),
            final(self)@.stage == stage_after(old(self)@, losers@.len() as int),
    {
        if losers.len() == 0 {
            proof {
                assert(self@.players =~= old(self)@.players);
                assert forall|k: int| 0 <= k < old(self)@.players.len() implies (
                #[trigger] self@.players[k]) == (
                old(self)@.players[k].0,
                EntryV {
                    game_state: GameStateV {
                        lives: loss_spec(old(self)@, ids_views(losers@), k),
                        ..old(self)@.players[k].1.game_state
                    },
                    ..old(self)@.players[k].1
                },
                ) by {
                    assert(!ids_views(losers@).contains(old(self)@.players[k].0));
                }
            }
            return ;
        }
        let mode = self.lobby_options.gamemode;
        match mode {
            GameMode::CoopSurvival => {
                let ghost target = Seq::new(
                    old(self)@.players.len(),
                    |k: int|
                        (
                            old(self)@.players[k].0,
                            EntryV {
                                game_state: GameStateV {
                                    lives: loss_spec(old(self)@, ids_views(losers@), k),
                                    ..old(self)@.players[k].1.game_state
                                },
                                ..old(self)@.players[k].1
                            },
                        ),
                );
                let mut i: usize = 0;
                while i < self.players.len()
                    invariant
                        i <= self.players@.len(),
                        self@.players.len() == old(self)@.players.len(),
                        target.len() == old(self)@.players.len(),
                        forall|k: int|
                            0 <= k < target.len() ==> #[trigger] target[k] == (
                                old(self)@.players[k].0,
                                EntryV {
                                    game_state: GameStateV {
                                        lives: loss_spec(old(self)@, ids_views(losers@), k),
                                        ..old(self)@.players[k].1.game_state
                                    },
                                    ..old(self)@.players[k].1
                                },
                            ),
                        old(self)@.lobby_options.gamemode == GameMode::CoopSurvival,
                        losers@.len() > 0,
                        forall|j: int| 0 <= j < i ==> self@.players[j] == target[j],
                        forall|j: int|
                            i <= j < self@.players.len() ==> self@.players[j] == old(
                                self,
                            )@.players[j],
                        self.code@ == old(self).code@,
                        self.started == old(self).started,
                        self.boss_chips@ == old(self).boss_chips@,
                        self.lobby_options@ == old(self).lobby_options@,
                        self.stage == old(self).stage,
                        self.max_players == old(self).max_players,
                    decreases self.players@.len() - i,
                {
                    let lives = self.players[i].1.game_state.lives;
                    self.players[i].1.game_state.lives = if lives >= 1 {
                        lives - 1
                    } else {
                        0
                    };
                    i = i + 1;
                }
                proof {
                    assert forall|k: int| 0 <= k < self@.players.len() implies (
                    #[trigger] self@.players[k]).1.lobby_state.is_host == old(
                        self,
                    )@.players[k].1.lobby_state.is_host by {
                        assert(self@.players[k] == target[k]);
                    }
                    lemma_host_count_pointwise(old(self)@.players, self@.players);
                    assert forall|a: int, b: int|
                        0 <= a < b < self@.players.len() implies (#[trigger] self@.players[a]).0
                        != (#[trigger] self@.players[b]).0 by {
                        assert(self@.players[a] == target[a] && self@.players[b] == target[b]);
                    }
                    assert forall|k: int| 0 <= k < old(self)@.players.len() implies (
                    #[trigger] self@.players[k]) == (
                    old(self)@.players[k].0,
                    EntryV {
                        game_state: GameStateV {
                            lives: loss_spec(old(self)@, ids_views(losers@), k),
                            ..old(self)@.players[k].1.game_state
                        },
                        ..old(self)@.players[k].1
                    },
                    ) by {
                        assert(self@.players[k] == target[k]);
                    }
                }
            },
            GameMode::Clash => {
                let ghost lv = ids_views(losers@);
                let mut i: usize = 0;
                while i < losers.len()
                    invariant
                        i <= losers@.len(),
                        losers@.len() <= 255,
                        lv == ids_views(losers@),
                        ids_unique_seq(lv),
                        players_unique(old(self)@.players),
                        forall|a: int|
                            0 <= a < losers@.len() ==> seated(old(self)@.players, #[trigger] lv[a]),
                        self@.players.len() == old(self)@.players.len(),
                        old(self)@.lobby_options.gamemode == GameMode::Clash,
                        forall|k: int|
                            0 <= k < old(self)@.players.len() ==> #[trigger] self@.players[k] == (
                                old(self)@.players[k].0,
                                EntryV {
                                    game_state: GameStateV {
                                        lives: clash_loss_partial(
                                            old(self)@,
                                            lv,
                                            k,
                                            i as int,
                                        ),
                                        ..old(self)@.players[k].1.game_state
                                    },
                                    ..old(self)@.players[k].1
                                },
                            ),
                        self.code@ == old(self).code@,
                        self.started == old(self).started,
                        self.boss_chips@ == old(self).boss_chips@,
                        self.lobby_options@ == old(self).lobby_options@,
                        self.stage == old(self).stage,
                        self.max_players == old(self).max_players,
                    decreases losers@.len() - i,
                {
                    let idx = match self.find_player(losers[i].as_str()) {
                        Some(idx) => idx,
                        None => {
                            proof {
                                assert(seated(old(self)@.players, lv[i as int]));
                                let w = choose|w: int|
                                    0 <= w < old(self)@.players.len() && (#[trigger] old(
                                        self,
                                    )@.players[w]).0 == lv[i as int];
                                assert(self@.players[w].0 == lv[i as int]);
                                assert(false);
                            }
                            0
                        },
                    };
                    let si: usize = if self.stage >= 0 && self.stage < 8 {
                        self.stage as usize
                    } else {
                        7
                    };
                    let base = CLASH_BASE_DAMAGE[si];
                    proof {
                        assert(base as int == clash_base(old(self)@.stage as int));
                    }
                    let dmg_wide: usize = base as usize + i + 1;
                    let dmg: u8 = if dmg_wide > 255 {
                        255
                    } else {
                        dmg_wide as u8
                    };
                    let ghost pre = self@.players;
                    let lives = self.players[idx].1.game_state.lives;
                    self.players[idx].1.game_state.lives = if lives >= dmg {
                        lives - dmg
                    } else {
                        0
                    };
                    proof {
                        let k0 = idx as int;
                        assert(old(self)@.players[k0].0 == lv[i as int]);
                        assert(dmg == clash_damage(old(self)@.stage as int, i as int));
                        assert(!in_losers_up_to(lv, lv[i as int], i as int)) by {
                            if in_losers_up_to(lv, lv[i as int], i as int) {
                                let a = choose|a: int|
                                    0 <= a < i && a < lv.len() && lv[a] == lv[i as int];
                                assert(lv[a] != lv[i as int]);
                            }
                        }
                        lemma_loser_rank(lv, i as int, i as int + 1);
                        assert forall|k: int|
                            0 <= k < old(self)@.players.len() implies #[trigger] self@.players[k]
                            == (
                            old(self)@.players[k].0,
                            EntryV {
                                game_state: GameStateV {
                                    lives: clash_loss_partial(old(self)@, lv, k, i as int + 1),
                                    ..old(self)@.players[k].1.game_state
                                },
                                ..old(self)@.players[k].1
                            },
                        ) by {
                            let id = old(self)@.players[k].0;
                            if k == k0 {
                                assert(pre[k0].1.game_state.lives == clash_loss_partial(
                                    old(self)@,
                                    lv,
                                    k0,
                                    i as int,
                                ));
                                assert(clash_loss_partial(old(self)@, lv, k0, i as int) == old(
                                    self,
                                )@.players[k0].1.game_state.lives);
                                assert(in_losers_up_to(lv, id, i as int + 1));
                                assert(loser_rank_before(lv, id, i as int + 1) == i as int);
                            } else {
                                assert(id != old(self)@.players[k0].0);
                                assert(self@.players[k] == pre[k]);
                                assert(in_losers_up_to(lv, id, i as int + 1) == in_losers_up_to(
                                    lv,
                                    id,
                                    i as int,
                                )) by {
                                    if in_losers_up_to(lv, id, i as int + 1) {
                                        let a = choose|a: int|
                                            0 <= a < i + 1 && a < lv.len() && lv[a] == id;
                                        assert(a != i);
                                        assert(in_losers_up_to(lv, id, i as int));
                                    }
                                }
                                if in_losers_up_to(lv, id, i as int) {
                                    lemma_rank_unique(lv, id, i as int, i as int + 1);
                                }
                            }
                        }
                    }
                    i = i + 1;
                }
                if self.stage < i32::MAX {
                    self.stage = self.stage + 1;
                }
                proof {
                    lemma_host_count_pointwise(old(self)@.players, self@.players);
                    assert forall|k: int| 0 <= k < old(self)@.players.len() implies (
                    #[trigger] self@.players[k]) == (
                    old(self)@.players[k].0,
                    EntryV {
                        game_state: GameStateV {
                            lives: loss_spec(old(self)@, lv, k),
                            ..old(self)@.players[k].1.game_state
                        },
                        ..old(self)@.players[k].1
                    },
                    ) by {
                        assert(clash_loss_partial(old(self)@, lv, k, lv.len() as int) == loss_spec(
                            old(self)@,
                            lv,
                            k,
                        ));
                    }
                }
            },
            _ => {
                let ghost lv = ids_views(losers@);
                let mut i: usize = 0;
                while i < losers.len()
                    invariant
                        i <= losers@.len(),
                        lv == ids_views(losers@),
                        ids_unique_seq(lv),
                        players_unique(old(self)@.players),
                        forall|a: int|
                            0 <= a < losers@.len() ==> seated(old(self)@.players, #[trigger] lv[a]),
                        self@.players.len() == old(self)@.players.len(),
                        !(old(self)@.lobby_options.gamemode == GameMode::CoopSurvival),
                        !(old(self)@.lobby_options.gamemode == GameMode::Clash),
                        forall|k: int|
                            0 <= k < old(self)@.players.len() ==> #[trigger] self@.players[k] == (
                                old(self)@.players[k].0,
                                EntryV {
                                    game_state: GameStateV {
                                        lives: default_loss_partial(
                                            old(self)@,
                                            lv,
                                            k,
                                            i as int,
                                        ),
                                        ..old(self)@.players[k].1.game_state
                                    },
                                    ..old(self)@.players[k].1
                                },
                            ),
                        self.code@ == old(self).code@,
                        self.started == old(self).started,
                        self.boss_chips@ == old(self).boss_chips@,
                        self.lobby_options@ == old(self).lobby_options@,
                        self.stage == old(self).stage,
                        self.max_players == old(self).max_players,
                    decreases losers@.len() - i,
                {
                    let idx = match self.find_player(losers[i].as_str()) {
                        Some(idx) => idx,
                        None => {
                            proof {
                                assert(seated(old(self)@.players, lv[i as int]));
                                let w = choose|w: int|
                                    0 <= w < old(self)@.players.len() && (#[trigger] old(
                                        self,
                                    )@.players[w]).0 == lv[i as int];
                                assert(self@.players[w].0 == lv[i as int]);
                                assert(false);
                            }
                            0
                        },
                    };
                    let ghost pre = self@.players;
                    let lives = self.players[idx].1.game_state.lives;
                    self.players[idx].1.game_state.lives = if lives >= 1 {
                        lives - 1
                    } else {
                        0
                    };
                    proof {
                        let k0 = idx as int;
                        assert(old(self)@.players[k0].0 == lv[i as int]);
                        assert(!in_losers_up_to(lv, lv[i as int], i as int)) by {
                            if in_losers_up_to(lv, lv[i as int], i as int) {
                                let a = choose|a: int|
                                    0 <= a < i && a < lv.len() && lv[a] == lv[i as int];
                                assert(lv[a] != lv[i as int]);
                            }
                        }
                        assert forall|k: int|
                            0 <= k < old(self)@.players.len() implies #[trigger] self@.players[k]
                            == (
                            old(self)@.players[k].0,
                            EntryV {
                                game_state: GameStateV {
                                    lives: default_loss_partial(old(self)@, lv, k, i as int + 1),
                                    ..old(self)@.players[k].1.game_state
                                },
                                ..old(self)@.players[k].1
                            },
                        ) by {
                            let id = old(self)@.players[k].0;
                            if k == k0 {
                                assert(pre[k0].1.game_state.lives == default_loss_partial(
                                    old(self)@,
                                    lv,
                                    k0,
                                    i as int,
                                ));
                                assert(in_losers_up_to(lv, id, i as int + 1)) by {
                                    assert(lv[i as int] == id);
                                }
                            } else {
                                assert(id != old(self)@.players[k0].0);
                                assert(self@.players[k] == pre[k]);
                                assert(in_losers_up_to(lv, id, i as int + 1) == in_losers_up_to(
                                    lv,
                                    id,
                                    i as int,
                                )) by {
                                    if in_losers_up_to(lv, id, i as int + 1) {
                                        let a = choose|a: int|
                                            0 <= a < i + 1 && a < lv.len() && lv[a] == id;
                                        assert(a != i);
                                        assert(in_losers_up_to(lv, id, i as int));
                                    }
                                }
                            }
                        }
                    }
                    i = i + 1;
                }
                proof {
                    lemma_host_count_pointwise(old(self)@.players, self@.players);
                    assert forall|k: int| 0 <= k < old(self)@.players.len() implies (
                    #[trigger] self@.players[k]) == (
                    old(self)@.players[k].0,
                    EntryV {
                        game_state: GameStateV {
                            lives: loss_spec(old(self)@, lv, k),
                            ..old(self)@.players[k].1.game_state
                        },
                        ..old(self)@.players[k].1
                    },
                    ) by {
                        assert(default_loss_partial(old(self)@, lv, k, lv.len() as int)
                            == loss_spec(old(self)@, lv, k));
                    }
                }
            },
        }
        proof {
            let lv = ids_views(losers@);
            let b = old(self)@.players;
            assert forall|k: int| 0 <= k < b.len() implies (#[trigger] self@.players[k]) == (
            b[k].0,
            EntryV {
                game_state: GameStateV { lives: loss_spec(old(self)@, lv, k), ..b[k].1.game_state },
                ..b[k].1
            },
            ) by {
            }
            assert forall|a: int, c: int| 0 <= a < c < self@.players.len() implies (
            #[trigger] self@.players[a]).0 != (#[trigger] self@.players[c]).0 by {
                assert(self@.players[a].0 == b[a].0 && self@.players[c].0 == b[c].0);
            }
            assert forall|k: int|
                0 <= k < self@.players.len() implies crate::lobby::game_state::game_state_wf(
                (#[trigger] self@.players[k]).1.game_state,
            ) by {
                assert(crate::lobby::game_state::game_state_wf(b[k].1.game_state));
            }
            if lives_bounded(old(self)@) {
                assert forall|k: int|
                    0 <= k < self@.players.len() implies (#[trigger] self@.players[k]).1.game_state
                    .lives <= self@.lobby_options.starting_lives by {
                    assert(b[k].1.game_state.lives <= old(self)@.lobby_options.starting_lives);
                }
            }
        }
    }

    /// Whether every seated player other than the named one has no lives.
    pub fn all_other_players_dead(&self, except: &str) -> (r: bool)
        ensures
            r == forall|i: int|
                0 <= i < self@.players.len() && (#[trigger] self@.players[i]).0 != except@
                    ==> self@.players[i].1.game_state.lives == 0,
    {
        let mut i: usize = 0;
        while i < self.players.len()
            invariant
                i <= self.players@.len(),
                forall|j: int|
                    0 <= j < i && (#[trigger] self@.players[j]).0 != except@
                        ==> self@.players[j].1.game_state.lives == 0,
            decreases self.players@.len() - i,
        {
            if !crate::talisman_number::str_eq_literal(self.players[i].0.as_str(), except)
                && self.players[i].1.game_state.lives != 0 {
                proof {
                    assert(self@.players[i as int].0 != except@ && self@.players[
                        i as int
                    ].1.game_state.lives != 0);
                }
                return false;
            }
            i = i + 1;
        }
        true
    }

    /// Judge whether the game is over, by mode, and with what outcome. In
    /// Clash the dead players leave the running game here.
    pub fn check_game_over(&mut self) -> (r: (bool, Vec<String>, Vec<String>))
        requires
            lobby_wf(old(self)@),
        ensures
            lobby_wf(final(self)@),
            lives_bounded(old(self)@) ==> lives_bounded(final(self)@),
            r.0 == game_over_spec(old(self)@),
            old(self)@.lobby_options.gamemode != GameMode::Clash ==> final(self)@ == old(self)@,
            old(self)@.lobby_options.gamemode == GameMode::Clash ==> (if someone_dead(
                old(self)@.players,
            ) {
                final(self)@ == (LobbyV {
                    players: old(self)@.players.map_values(
                        |p: (Seq<char>, EntryV)| (
                            p.0,
                            EntryV {
                                lobby_state: LobbyStateV {
                                    in_game: p.1.lobby_state.in_game && p.1.game_state.lives > 0,
                                    ..p.1.lobby_state
                                },
                                ..p.1
                            },
                        ),
                    ),
                    ..old(self)@
                })
            } else {
                final(self)@ == old(self)@
            }),
            game_outcome_spec(old(self)@, r.0, ids_views(r.1@), ids_views(r.2@)),
    {
        let mode = self.lobby_options.gamemode;
        match mode {
            GameMode::Survival => {
                let alive = self.alive_in_game_count();
                if alive <= 1 {
                    let (w, l) = self.get_survival_winners_losers();
                    (true, w, l)
                } else {
                    let e1: Vec<String> = Vec::new();
                    let e2: Vec<String> = Vec::new();
                    proof {
                        assert(ids_views(e1@) =~= Seq::<Seq<char>>::empty());
                        assert(ids_views(e2@) =~= Seq::<Seq<char>>::empty());
                    }
                    (false, e1, e2)
                }
            },
            GameMode::CoopSurvival => {
                let dead = self.is_someone_dead();
                if dead {
                    let ids = self.all_ids();
                    let e1: Vec<String> = Vec::new();
                    proof {
                        assert(ids_views(e1@) =~= Seq::<Seq<char>>::empty());
                    }
                    (true, e1, ids)
                } else {
                    let e1: Vec<String> = Vec::new();
                    let e2: Vec<String> = Vec::new();
                    proof {
                        assert(ids_views(e1@) =~= Seq::<Seq<char>>::empty());
                        assert(ids_views(e2@) =~= Seq::<Seq<char>>::empty());
                    }
                    (false, e1, e2)
                }
            },
            GameMode::Clash => {
                let dead = self.is_someone_dead();
                if dead {
                    let ghost target = old(self)@.players.map_values(
                        |p: (Seq<char>, EntryV)| (
                            p.0,
                            EntryV {
                                lobby_state: LobbyStateV {
                                    in_game: p.1.lobby_state.in_game && p.1.game_state.lives > 0,
                                    ..p.1.lobby_state
                                },
                                ..p.1
                            },
                        ),
                    );
                    let mut i: usize = 0;
                    while i < self.players.len()
                        invariant
                            i <= self.players@.len(),
                            self@.players.len() == old(self)@.players.len(),
                            target.len() == old(self)@.players.len(),
                            forall|k: int|
                                0 <= k < target.len() ==> #[trigger] target[k] == (
                                    old(self)@.players[k].0,
                                    EntryV {
                                        lobby_state: LobbyStateV {
                                            in_game: old(
                                                self,
                                            )@.players[k].1.lobby_state.in_game && old(
                                                self,
                                            )@.players[k].1.game_state.lives > 0,
                                            ..old(self)@.players[k].1.lobby_state
                                        },
                                        ..old(self)@.players[k].1
                                    },
                                ),
                            forall|j: int| 0 <= j < i ==> self@.players[j] == target[j],
                            forall|j: int|
                                i <= j < self@.players.len() ==> self@.players[j] == old(
                                    self,
                                )@.players[j],
                            self.code@ == old(self).code@,
                            self.started == old(self).started,
                            self.boss_chips@ == old(self).boss_chips@,
                            self.lobby_options@ == old(self).lobby_options@,
                            self.stage == old(self).stage,
                            self.max_players == old(self).max_players,
                        decreases self.players@.len() - i,
                    {
                        let in_game = self.players[i].1.lobby_state.in_game;
                        let alive = self.players[i].1.game_state.lives > 0;
                        self.players[i].1.lobby_state.in_game = in_game && alive;
                        i = i + 1;
                    }
                    proof {
                        assert(self@.players =~= target);
                        assert forall|k: int| 0 <= k < self@.players.len() implies (
                        #[trigger] self@.players[k]).1.lobby_state.is_host == old(
                            self,
                        )@.players[k].1.lobby_state.is_host by {
                            assert(self@.players[k] == target[k]);
                        }
                        lemma_host_count_pointwise(old(self)@.players, self@.players);
                        assert forall|a: int, b: int|
                            0 <= a < b < self@.players.len() implies (#[trigger] self@.players[a]).0
                            != (#[trigger] self@.players[b]).0 by {
                            assert(self@.players[a] == target[a] && self@.players[b] == target[b]);
                        }
                        assert forall|k: int|
                            0 <= k
                                < self@.players.len() implies crate::lobby::game_state::game_state_wf(
                            (#[trigger] self@.players[k]).1.game_state,
                        ) by {
                            assert(self@.players[k] == target[k]);
                            assert(crate::lobby::game_state::game_state_wf(
                                old(self)@.players[k].1.game_state,
                            ));
                        }
                    }
                    let alive = self.alive_count();
                    let (w, l) = self.determine_game_end_results();
                    proof {
                        assert forall|k: int|
                            0 <= k < self@.players.len() implies #[trigger] self@.players[k].1
                            .game_state.lives == old(self)@.players[k].1.game_state.lives by {
                            assert(self@.players[k] == target[k]);
                        }
                        lemma_alive_count_pointwise(old(self)@.players, self@.players);
                        lemma_where_pointwise(old(self)@, self@);
                    }
                    (alive <= 1, w, l)
                } else {
                    let e1: Vec<String> = Vec::new();
                    let e2: Vec<String> = Vec::new();
                    proof {
                        assert(ids_views(e1@) =~= Seq::<Seq<char>>::empty());
                        assert(ids_views(e2@) =~= Seq::<Seq<char>>::empty());
                    }
                    (false, e1, e2)
                }
            },
            _ => {
                let dead = self.is_someone_dead();
                if dead {
                    let (w, l) = self.determine_game_end_results();
                    (true, w, l)
                } else {
                    let e1: Vec<String> = Vec::new();
                    let e2: Vec<String> = Vec::new();
                    proof {
                        assert(ids_views(e1@) =~= Seq::<Seq<char>>::empty());
                        assert(ids_views(e2@) =~= Seq::<Seq<char>>::empty());
                    }
                    (false, e1, e2)
                }
            },
        }
    }

    /// How many seated players are both in the game and hold lives.
    pub fn alive_in_game_count(&self) -> (n: usize)
        ensures
            n == alive_in_game_count(self@.players),
    {
        let mut count: usize = 0;
        let mut i: usize = 0;
        proof {
            lemma_alive_counts_bound(self@.players.take(0));
        }
        while i < self.players.len()
            invariant
                i <= self.players@.len(),
                count == alive_in_game_count(self@.players.take(i as int)),
                count <= i,
            decreases self.players@.len() - i,
        {
            proof {
                assert(self@.players.take(i as int + 1).drop_last() =~= self@.players.take(
                    i as int,
                ));
                assert(self@.players.take(i as int + 1).last() == self@.players[i as int]);
                lemma_alive_counts_bound(self@.players.take(i as int + 1));
            }
            if self.players[i].1.lobby_state.in_game && self.players[i].1.game_state.lives > 0 {
                count = count + 1;
            }
            i = i + 1;
        }
        proof {
            assert(self@.players.take(i as int) =~= self@.players);
        }
        count
    }

    /// How many seated players hold lives.
    pub fn alive_count(&self) -> (n: usize)
        ensures
            n == alive_count(self@.players),
    {
        let mut count: usize = 0;
        let mut i: usize = 0;
        proof {
            lemma_alive_counts_bound(self@.players.take(0));
        }
        while i < self.players.len()
            invariant
                i <= self.players@.len(),
                count == alive_count(self@.players.take(i as int)),
                count <= i,
            decreases self.players@.len() - i,
        {
            proof {
                assert(self@.players.take(i as int + 1).drop_last() =~= self@.players.take(
                    i as int,
                ));
                assert(self@.players.take(i as int + 1).last() == self@.players[i as int]);
                lemma_alive_counts_bound(self@.players.take(i as int + 1));
            }
            if self.players[i].1.game_state.lives > 0 {
                count = count + 1;
            }
            i = i + 1;
        }
        proof {
            assert(self@.players.take(i as int) =~= self@.players);
        }
        count
    }

    /// Begin the game: everyone present is dealt in with the configured
    /// lives, and a fresh time-based seed replaces a `random` seed unless
    /// each client rolls its own.
    pub fn start_game(&mut self)
        requires
            lobby_wf(old(self)@),
        ensures
            lobby_wf(final(self)@),
            lives_bounded(final(self)@),
            final(self)@.started,
            final(self)@.players == old(self)@.players.map_values(
                |p: (Seq<char>, EntryV)| (
                    p.0,
                    entry_dealt(p.1, old(self)@.lobby_options.starting_lives, true),
                ),
            ),
            final(self)@.code == old(self)@.code,
            final(self)@.boss_chips == old(self)@.boss_chips,
            final(self)@.stage == old(self)@.stage,
            final(self)@.max_players == old(self)@.max_players,
            final(self)@.lobby_options == (LobbyOptionsV {
                custom_seed: final(self)@.lobby_options.custom_seed,
                ..old(self)@.lobby_options
            }),
            if !old(self)@.lobby_options.different_seeds && old(self)@.lobby_options.custom_seed
                =~= "random"@ {
                &&& final(self)@.lobby_options.custom_seed.len() == 9
                &&& final(self)@.lobby_options.custom_seed[0] == '*'
                &&& forall|i: int|
                    1 <= i < final(self)@.lobby_options.custom_seed.len()
                        ==> crate::utils::is_seed_char(
                        #[trigger] final(self)@.lobby_options.custom_seed[i],
                    )
            } else {
                final(self)@.lobby_options.custom_seed == old(self)@.lobby_options.custom_seed
            },
    {
        self.started = true;
        if !self.lobby_options.different_seeds && crate::talisman_number::str_eq_literal(
            self.lobby_options.custom_seed.as_str(),
            "random",
        ) {
            self.lobby_options.custom_seed = crate::utils::time_based_string(8);
        }
        self.reset_game_states(true);
    }

    /// End the game: everyone is dealt out with fresh state and the
    /// configured lives, the Clash stage and the boss target reset, and the
    /// seed returns to `random`.
    pub fn stop_game(&mut self)
        requires
            lobby_wf(old(self)@),
        ensures
            lobby_wf(final(self)@),
            lives_bounded(final(self)@),
            !final(self)@.started,
            final(self)@.stage == 0,
            final(self)@.boss_chips == TnView::Regular(DecNum::Num { mant: 0, exp: 0 }),
            final(self)@.players == old(self)@.players.map_values(
                |p: (Seq<char>, EntryV)| (
                    p.0,
                    entry_dealt(p.1, old(self)@.lobby_options.starting_lives, false),
                ),
            ),
            final(self)@.code == old(self)@.code,
            final(self)@.max_players == old(self)@.max_players,
            final(self)@.lobby_options == (LobbyOptionsV {
                custom_seed: "random"@,
                ..old(self)@.lobby_options
            }),
            forall|k: int|
                0 <= k < final(self)@.players.len() ==> {
                    let e = (#[trigger] final(self)@.players[k]).1;
                    &&& !e.lobby_state.in_game
                    &&& e.game_state.lives == old(self)@.lobby_options.starting_lives
                    &&& e.game_state.score == TnView::Regular(DecNum::Num { mant: 0, exp: 0 })
                },
    {
        self.started = false;
        self.reset_game_states(false);
        self.stage = 0;
        self.boss_chips = TalismanNumber::Regular(DecNum::Num { mant: 0, exp: 0 });
        self.lobby_options.custom_seed = String::from_str("random");
    }

    /// Evaluate the round once every in-game player has spent their hands:
    /// judge the outcome, take the lives, check for a finished game, and
    /// either deal the next blind's budgets or close the game out. Returns
    /// the whole outcome and the deliveries owed. Before all hands are spent
    /// this is a no-op, and right after an evaluation the budgets are
    /// restored, so a second call changes nothing until someone plays again.
    #[verifier::rlimit(100)]
    pub fn evaluate_online_round(
        &mut self,
        broadcaster: &crate::lobby::broadcaster::LobbyBroadcaster,
    ) -> (r: RoundReport)
        requires
            lobby_wf(old(self)@),
            broadcaster.wf(),
            old(self)@.players.len() <= 255,
        ensures
            lobby_wf(final(self)@),
            lives_bounded(old(self)@) ==> lives_bounded(final(self)@),
            final(self)@.code == old(self)@.code,
            final(self)@.max_players == old(self)@.max_players,
            final(self)@.lobby_options == old(self)@.lobby_options,
            evaluation_post(
                old(self)@,
                final(self)@,
                broadcaster.view_members(),
                r.evaluated,
                r.ended,
                ids_views(r.winners@),
                ids_views(r.losers@),
                ids_views(r.final_winners@),
                ids_views(r.final_losers@),
                r.effects@,
            ),
    {
        proof {
            reveal(evaluation_post);
        }
        if !self.all_players_done() {
            return RoundReport {
                evaluated: false,
                ended: false,
                winners: Vec::new(),
                losers: Vec::new(),
                final_winners: Vec::new(),
                final_losers: Vec::new(),
                effects: Vec::new(),
            };
        }
        let ghost before = self@;
        let (winners, losers) = self.check_round_victory();
        proof {
            lemma_victory_ids_ok(self@, ids_views(winners@), ids_views(losers@));
        }
        self.apply_life_loss(&losers);
        let ghost mid = self@;
        proof {
            assert(mid == after_loss(before, ids_views(losers@))) by {
                assert(mid.players =~= after_loss(before, ids_views(losers@)).players);
            }
        }
        let mut effects: Vec<Effect> = Vec::new();
        let mut j: usize = 0;
        while j < self.players.len()
            invariant
                j <= self.players@.len(),
                lobby_wf(self@),
                broadcaster.wf(),
                mid == self@,
                effects@.len() == j,
                forall|t: int|
                    0 <= t < j ==> is_broadcast(#[trigger] effects@[t], broadcaster.view_members())
                        && (effects@[t]->Send_msg matches ServerToClient::GameStateUpdate {
                        player_id,
                        game_state,
                    } && player_id@ == mid.players[t].0 && game_state@
                        == mid.players[t].1.game_state),
            decreases self.players@.len() - j,
        {
            let id = self.players[j].0.clone();
            let gs = self.players[j].1.game_state.duplicate();
            effects.push(
                broadcaster.broadcast(
                    ServerToClient::GameStateUpdate { player_id: id, game_state: gs },
                ),
            );
            j = j + 1;
        }
        let ghost gsfx = effects@;
        let ghost nn = effects@.len() as int;
        let ghost mut outseq: Seq<Effect> = Seq::empty();
        let (ended, final_winners, final_losers) = self.check_game_over();
        let ghost marked = self@;
        if ended {
            self.started = false;
            self.reset_ready_states_to_host_only();
            let ghost n0 = effects@.len();
            let ghost pre = effects@;
            let mut k: usize = 0;
            while k < final_winners.len()
                invariant
                    k <= final_winners@.len(),
                    broadcaster.wf(),
                    effects@.len() == n0 + k,
                    effects@.take(n0 as int) == pre,
                    forall|t: int|
                        0 <= t < k ==> is_unicast(
                            #[trigger] effects@[n0 + t],
                            broadcaster.view_members(),
                            ids_views(final_winners@)[t],
                        ) && (effects@[n0 + t]->Send_msg matches ServerToClient::WinGame { .. }),
                decreases final_winners@.len() - k,
            {
                effects.push(
                    broadcaster.send_to(final_winners[k].as_str(), ServerToClient::WinGame {}),
                );
                proof {
                    assert(effects@.take(n0 as int) =~= pre);
                }
                k = k + 1;
            }
            let ghost n1 = effects@.len();
            let ghost pre1 = effects@;
            let mut k2: usize = 0;
            while k2 < final_losers.len()
                invariant
                    k2 <= final_losers@.len(),
                    broadcaster.wf(),
                    effects@.len() == n1 + k2,
                    effects@.take(n1 as int) == pre1,
                    forall|t: int|
                        0 <= t < k2 ==> is_unicast(
                            #[trigger] effects@[n1 + t],
                            broadcaster.view_members(),
                            ids_views(final_losers@)[t],
                        ) && (effects@[n1 + t]->Send_msg matches ServerToClient::LoseGame { .. }),
                decreases final_losers@.len() - k2,
            {
                effects.push(
                    broadcaster.send_to(final_losers[k2].as_str(), ServerToClient::LoseGame {}),
                );
                proof {
                    assert(effects@.take(n1 as int) =~= pre1);
                }
                k2 = k2 + 1;
            }
            proof {
                outseq = effects@;
                assert forall|t: int| 0 <= t < final_winners@.len() implies is_unicast(
                    #[trigger] outseq[n0 + t],
                    broadcaster.view_members(),
                    ids_views(final_winners@)[t],
                ) && (outseq[n0 + t]->Send_msg matches ServerToClient::WinGame { .. }) by {
                    assert(outseq[n0 + t] == effects@.take(n1 as int)[n0 + t]);
                    assert(outseq[n0 + t] == pre1[n0 + t]);
                }
            }
            let ready = self.collect_ready_states();
            effects.push(broadcaster.broadcast(ServerToClient::LobbyReady { ready_states: ready }));
            proof {
                assert(effects@.take(nn) =~= gsfx);
                assert(effects@.take(outseq.len() as int) =~= outseq);
            }
        } else {
            self.reset_scores();
            let ghost n0 = effects@.len();
            let ghost pre = effects@;
            let mut k: usize = 0;
            while k < winners.len()
                invariant
                    k <= winners@.len(),
                    broadcaster.wf(),
                    effects@.len() == n0 + k,
                    effects@.take(n0 as int) == pre,
                    forall|t: int|
                        0 <= t < k ==> is_unicast(
                            #[trigger] effects@[n0 + t],
                            broadcaster.view_members(),
                            ids_views(winners@)[t],
                        ) && (effects@[n0 + t]->Send_msg matches ServerToClient::EndPvp { won }
                            && won),
                decreases winners@.len() - k,
            {
                effects.push(
                    broadcaster.send_to(winners[k].as_str(), ServerToClient::EndPvp { won: true }),
                );
                proof {
                    assert(effects@.take(n0 as int) =~= pre);
                }
                k = k + 1;
            }
            let ghost n1 = effects@.len();
            let ghost pre1 = effects@;
            let mut k2: usize = 0;
            while k2 < losers.len()
                invariant
                    k2 <= losers@.len(),
                    broadcaster.wf(),
                    effects@.len() == n1 + k2,
                    effects@.take(n1 as int) == pre1,
                    forall|t: int|
                        0 <= t < k2 ==> is_unicast(
                            #[trigger] effects@[n1 + t],
                            broadcaster.view_members(),
                            ids_views(losers@)[t],
                        ) && (effects@[n1 + t]->Send_msg matches ServerToClient::EndPvp { won }
                            && !won),
                decreases losers@.len() - k2,
            {
                effects.push(
                    broadcaster.send_to(
                        losers[k2].as_str(),
                        ServerToClient::EndPvp { won: false },
                    ),
                );
                proof {
                    assert(effects@.take(n1 as int) =~= pre1);
                }
                k2 = k2 + 1;
            }
            // a death that leaves the game running (a Clash round can)
            // still tells the dead players they are out
            let ghost n2 = effects@.len();
            let ghost pre2 = effects@;
            let mut k3: usize = 0;
            while k3 < final_losers.len()
                invariant
                    k3 <= final_losers@.len(),
                    broadcaster.wf(),
                    effects@.len() == n2 + k3,
                    effects@.take(n2 as int) == pre2,
                    forall|t: int|
                        0 <= t < k3 ==> is_unicast(
                            #[trigger] effects@[n2 + t],
                            broadcaster.view_members(),
                            ids_views(final_losers@)[t],
                        ) && (effects@[n2 + t]->Send_msg matches ServerToClient::LoseGame { .. }),
                decreases final_losers@.len() - k3,
            {
                effects.push(
                    broadcaster.send_to(final_losers[k3].as_str(), ServerToClient::LoseGame {}),
                );
                proof {
                    assert(effects@.take(n2 as int) =~= pre2);
                }
                k3 = k3 + 1;
            }
            proof {
                outseq = effects@;
                assert forall|t: int| 0 <= t < winners@.len() implies is_unicast(
                    #[trigger] outseq[n0 + t],
                    broadcaster.view_members(),
                    ids_views(winners@)[t],
                ) && (outseq[n0 + t]->Send_msg matches ServerToClient::EndPvp { won } && won) by {
                    assert(outseq[n0 + t] == effects@.take(n2 as int)[n0 + t]);
                    assert(outseq[n0 + t] == pre2[n0 + t]);
                    assert(pre2[n0 + t] == pre2.take(n1 as int)[n0 + t]);
                    assert(pre2[n0 + t] == pre1[n0 + t]);
                }
                assert forall|t: int| 0 <= t < losers@.len() implies is_unicast(
                    #[trigger] outseq[n1 + t],
                    broadcaster.view_members(),
                    ids_views(losers@)[t],
                ) && (outseq[n1 + t]->Send_msg matches ServerToClient::EndPvp { won } && !won) by {
                    assert(outseq[n1 + t] == effects@.take(n2 as int)[n1 + t]);
                    assert(outseq[n1 + t] == pre2[n1 + t]);
                }
            }
        }
        let statuses = self.get_in_game_statuses();
        effects.push(broadcaster.broadcast(ServerToClient::InGameStatuses { statuses }));
        proof {
            assert(effects@.take(nn) =~= gsfx);
            assert(effects@.take(outseq.len() as int) =~= outseq);
        }
        proof {
            let w = ids_views(winners@);
            let lo = ids_views(losers@);
            let fw = ids_views(final_winners@);
            let fl = ids_views(final_losers@);
            assert(before == old(self)@);
            assert(round_victory_spec(old(self)@, w, lo));
            assert(game_outcome_spec(after_loss(old(self)@, lo), ended, fw, fl));
            assert(mid == after_loss(old(self)@, lo));
            assert(effects@.len() == mid.players.len() + (if ended {
                fw.len() + fl.len() + 1int
            } else {
                w.len() + lo.len() + fl.len() + 0int
            }) + 1);
            let n = mid.players.len() as int;
            let mv = broadcaster.view_members();
            assert(ended == game_over_spec(mid));
            assert forall|t: int| 0 <= t < n implies is_broadcast(#[trigger] effects@[t], mv) && (
            effects@[t]->Send_msg matches ServerToClient::GameStateUpdate { player_id, game_state }
                && player_id@ == mid.players[t].0 && game_state@
                == mid.players[t].1.game_state) by {
                assert(effects@[t] == effects@.take(nn)[t]);
                assert(effects@[t] == gsfx[t]);
            }
            if !ended {
                assert forall|t: int| 0 <= t < w.len() implies is_unicast(
                    #[trigger] effects@[n + t],
                    mv,
                    w[t],
                ) && (effects@[n + t]->Send_msg matches ServerToClient::EndPvp { won } && won) by {
                    assert(effects@[n + t] == effects@.take(outseq.len() as int)[n + t]);
                    assert(effects@[n + t] == outseq[n + t]);
                }
                assert forall|t: int| 0 <= t < lo.len() implies is_unicast(
                    #[trigger] effects@[n + w.len() + t],
                    mv,
                    lo[t],
                ) && (effects@[n + w.len() + t]->Send_msg matches ServerToClient::EndPvp { won }
                    && !won) by {
                    assert(effects@[n + w.len() + t] == outseq[n + w.len() + t]);
                }
                assert forall|t: int| 0 <= t < fl.len() implies is_unicast(
                    #[trigger] effects@[n + w.len() + lo.len() + t],
                    mv,
                    fl[t],
                ) && (effects@[n + w.len() + lo.len() + t]->Send_msg
                    matches ServerToClient::LoseGame { .. }) by {
                    assert(effects@[n + w.len() + lo.len() + t] == outseq[n + w.len() + lo.len()
                        + t]);
                }
            } else {
                assert forall|t: int| 0 <= t < fw.len() implies is_unicast(
                    #[trigger] effects@[n + t],
                    mv,
                    fw[t],
                ) && (effects@[n + t]->Send_msg matches ServerToClient::WinGame { .. }) by {
                    assert(effects@[n + t] == effects@.take(outseq.len() as int)[n + t]);
                    assert(effects@[n + t] == outseq[n + t]);
                }
                assert forall|t: int| 0 <= t < fl.len() implies is_unicast(
                    #[trigger] effects@[n + fw.len() + t],
                    mv,
                    fl[t],
                ) && (effects@[n + fw.len() + t]->Send_msg matches ServerToClient::LoseGame {
                    ..
                }) by {
                    assert(effects@[n + fw.len() + t] == outseq[n + fw.len() + t]);
                }
                assert(is_broadcast(effects@[n + fw.len() + fl.len()], mv) && (effects@[n + fw.len()
                    + fl.len()]->Send_msg matches ServerToClient::LobbyReady { .. }));
            }
            assert(is_broadcast(effects@[effects@.len() - 1], mv) && (effects@[effects@.len()
                - 1]->Send_msg matches ServerToClient::InGameStatuses { .. }));
            if ended {
                assert(final(self)@ == (LobbyV {
                    started: false,
                    players: after_mark(mid).players.map_values(
                        |p: (Seq<char>, EntryV)| (
                            p.0,
                            entry_with_ready(p.1, p.1.lobby_state.is_host),
                        ),
                    ),
                    ..after_mark(mid)
                })) by {
                    assert(marked == after_mark(mid)) by {
                        if mid.lobby_options.gamemode == GameMode::Clash && someone_dead(
                            mid.players,
                        ) {
                            assert(marked.players =~= after_mark(mid).players);
                        }
                    }
                }
            } else {
                assert(marked == after_mark(mid)) by {
                    if mid.lobby_options.gamemode == GameMode::Clash && someone_dead(mid.players) {
                        assert(marked.players =~= after_mark(mid).players);
                    }
                }
                assert(final(self)@ == (LobbyV {
                    players: after_mark(mid).players.map_values(
                        |p: (Seq<char>, EntryV)| (p.0, entry_scores_reset(p.1)),
                    ),
                    ..after_mark(mid)
                })) by {
                    assert(self@.players =~= after_mark(mid).players.map_values(
                        |p: (Seq<char>, EntryV)| (p.0, entry_scores_reset(p.1)),
                    ));
                }
            }
        }
        RoundReport {
            evaluated: true,
            ended,
            winners,
            losers,
            final_winners,
            final_losers,
            effects,
        }
    }

    /// Whether every in-game player is ready.
    pub fn all_in_game_ready(&self) -> (r: bool)
        ensures
            r == spec_all_in_game_ready(self@.players),
    {
        let mut i: usize = 0;
        while i < self.players.len()
            invariant
                i <= self.players@.len(),
                forall|j: int|
                    0 <= j < i ==> ((#[trigger] self@.players[j]).1.lobby_state.in_game
                        ==> self@.players[j].1.lobby_state.is_ready),
            decreases self.players@.len() - i,
        {
            if self.players[i].1.lobby_state.in_game && !self.players[i].1.lobby_state.is_ready {
                proof {
                    assert(self@.players[i as int].1.lobby_state.in_game && !self@.players[
                        i as int
                    ].1.lobby_state.is_ready);
                }
                return false;
            }
            i = i + 1;
        }
        true
    }

    /// Begin the next blind: clear every ready flag, zero the scores and
    /// restore the budgets, tell the in-game players to start, and send the
    /// fresh ready states to everyone.
    pub fn start_online_blind(
        &mut self,
        broadcaster: &crate::lobby::broadcaster::LobbyBroadcaster,
    ) -> (effects: Vec<Effect>)
        requires
            lobby_wf(old(self)@),
            broadcaster.wf(),
        ensures
            lobby_wf(final(self)@),
            lives_bounded(old(self)@) ==> lives_bounded(final(self)@),
            final(self)@ == (LobbyV {
                players: old(self)@.players.map_values(
                    |p: (Seq<char>, EntryV)| (
                        p.0,
                        entry_scores_reset(entry_with_ready(p.1, false)),
                    ),
                ),
                ..old(self)@
            }),
            effects@.len() == 2,
            effects@[0] is Send && (effects@[0]->Send_msg matches ServerToClient::StartBlind {
                ..
            }),
            forall|x: Seq<char>|
                #[trigger] crate::lobby::broadcaster::ids_view(
                    effects@[0]->Send_to@,
                ).contains(x) <==> (broadcaster.view_members().contains(x) && !ids_where(
                    final(self)@.players,
                    (|p: (Seq<char>, EntryV)| !p.1.lobby_state.in_game),
                ).contains(x)),
            is_broadcast(effects@[1], broadcaster.view_members()) && (effects@[1]->Send_msg
                matches ServerToClient::LobbyReady { .. }),
            ready_payload(effects@[1]->Send_msg, final(self)@.players),
    {
        self.reset_ready_states();
        self.reset_scores();
        proof {
            assert(self@.players =~= old(self)@.players.map_values(
                |p: (Seq<char>, EntryV)| (p.0, entry_scores_reset(entry_with_ready(p.1, false))),
            ));
        }
        let mut effects: Vec<Effect> = Vec::new();
        let benched = self.not_in_game_ids();
        proof {
            assert(crate::lobby::broadcaster::ids_view(benched@) =~= ids_views(benched@));
        }
        effects.push(broadcaster.broadcast_excluding(&benched, ServerToClient::StartBlind {}));
        let ready = self.collect_ready_states();
        effects.push(broadcaster.broadcast(ServerToClient::LobbyReady { ready_states: ready }));
        effects
    }

    /// The ids of the seats outside the running game, in join order.
    fn not_in_game_ids(&self) -> (r: Vec<String>)
        ensures
            ids_views(r@) =~= ids_where(
                self@.players,
                |p: (Seq<char>, EntryV)| !p.1.lobby_state.in_game,
            ),
    {
        let ghost f = |p: (Seq<char>, EntryV)| !p.1.lobby_state.in_game;
        let mut r: Vec<String> = Vec::new();
        let mut i: usize = 0;
        while i < self.players.len()
            invariant
                i <= self.players@.len(),
                f == (|p: (Seq<char>, EntryV)| !p.1.lobby_state.in_game),
                ids_views(r@) =~= ids_where(self@.players.take(i as int), f),
            decreases self.players@.len() - i,
        {
            proof {
                assert(self@.players.take(i as int + 1).drop_last() =~= self@.players.take(
                    i as int,
                ));
                assert(self@.players.take(i as int + 1).last() == self@.players[i as int]);
            }
            let ghost rv = ids_views(r@);
            if !self.players[i].1.lobby_state.in_game {
                let id = self.players[i].0.clone();
                r.push(id);
                proof {
                    assert(ids_views(r@) =~= rv.push(self@.players[i as int].0));
                }
            }
            i = i + 1;
        }
        proof {
            assert(self@.players.take(i as int) =~= self@.players);
        }
        r
    }

    /// The id of the seat holding the host flag, if any.
    pub fn current_host_id(&self) -> (r: Option<String>)
        ensures
            r matches Some(id) ==> exists|i: int|
                0 <= i < self@.players.len() && (#[trigger] self@.players[i]).0 == id@
                    && self@.players[i].1.lobby_state.is_host,
            r is None ==> forall|i: int|
                0 <= i < self@.players.len() ==> !(#[trigger] self@.players[i]).1.lobby_state
                    .is_host,
    {
        let mut i: usize = 0;
        while i < self.players.len()
            invariant
                i <= self.players@.len(),
                forall|j: int|
                    0 <= j < i ==> !(#[trigger] self@.players[j]).1.lobby_state.is_host,
            decreases self.players@.len() - i,
        {
            if self.players[i].1.lobby_state.is_host {
                let id = self.players[i].0.clone();
                proof {
                    assert(self@.players[i as int].0 == id@ && self@.players[
                        i as int
                    ].1.lobby_state.is_host);
                }
                return Some(id);
            }
            i = i + 1;
        }
        None
    }

    /// A copy of the seat list, for messages that carry the whole lobby.
    pub fn players_snapshot(&self) -> (r: Vec<ClientLobbyEntry>)
        ensures
            r@.map_values(|e: ClientLobbyEntry| e@) =~= self@.players.map_values(
                |p: (Seq<char>, EntryV)| p.1,
            ),
    {
        let mut r: Vec<ClientLobbyEntry> = Vec::new();
        let mut i: usize = 0;
        while i < self.players.len()
            invariant
                i <= self.players@.len(),
                r@.map_values(|e: ClientLobbyEntry| e@) =~= self@.players.take(i as int).map_values(
                    |p: (Seq<char>, EntryV)| p.1,
                ),
            decreases self.players@.len() - i,
        {
            let ghost before = r@.map_values(|e: ClientLobbyEntry| e@);
            let copied = self.players[i].1.duplicate();
            r.push(copied);
            proof {
                assert(r@.map_values(|e: ClientLobbyEntry| e@) =~= before.push(
                    self@.players[i as int].1,
                ));
            }
            i = i + 1;
        }
        proof {
            assert(self@.players.take(i as int) =~= self@.players);
        }
        r
    }

    /// A whole copy of the lobby record, as the join reply carries it.
    pub fn snapshot(&self) -> (r: Lobby)
        ensures
            r@ == self@,
    {
        let mut seats: Vec<(String, ClientLobbyEntry)> = Vec::new();
        let mut i: usize = 0;
        while i < self.players.len()
            invariant
                i <= self.players@.len(),
                seats@.map_values(|p: (String, ClientLobbyEntry)| (p.0@, p.1@)) =~= self@.players
                    .take(i as int),
            decreases self.players@.len() - i,
        {
            let ghost before = seats@.map_values(|p: (String, ClientLobbyEntry)| (p.0@, p.1@));
            let id = self.players[i].0.clone();
            let entry = self.players[i].1.duplicate();
            seats.push((id, entry));
            proof {
                assert(seats@.map_values(|p: (String, ClientLobbyEntry)| (p.0@, p.1@)) =~= before
                    .push(self@.players[i as int]));
            }
            i = i + 1;
        }
        proof {
            assert(self@.players.take(i as int) =~= self@.players);
        }
        let r = Lobby {
            code: self.code.clone(),
            started: self.started,
            boss_chips: self.boss_chips.duplicate(),
            lobby_options: self.lobby_options.duplicate(),
            players: seats,
            stage: self.stage,
            max_players: self.max_players,
        };
        r
    }
}

} // verus!
