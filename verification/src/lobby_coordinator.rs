//! The coordinator's directory: which lobby codes are live and which lobby
//! each client sits in. The coordinator never touches game state; it mints
//! codes, routes joins, and forwards disconnects. Spawning lobby tasks and
//! carrying their channels is the application's job.

use vstd::prelude::*;

verus! {

/// Relies on `rand::random`: a uniformly drawn machine word. Nothing is
/// promised of its value.
#[verifier::external_body]
fn random_u64() -> u64 {
    rand::random::<u64>()
}

/// A freshly minted lobby code: five characters from capital letters and
/// digits, drawn from the process random source. The caller regenerates on
/// collision.
pub fn generate_lobby_code() -> (r: String)
    ensures
        r@.len() == 5,
        forall|i: int| 0 <= i < r@.len() ==> crate::utils::is_seed_char(#[trigger] r@[i]),
{
    let mut r = String::new();
    let mut i: usize = 0;
    while i < 5
        invariant
            i <= 5,
            r@.len() == i,
            forall|j: int| 0 <= j < r@.len() ==> crate::utils::is_seed_char(#[trigger] r@[j]),
        decreases 5 - i,
    {
        let raw = random_u64();
        let c = crate::utils::seed_char((raw % 36) as u8);
        crate::utils::push_char(&mut r, c);
        i = i + 1;
    }
    r
}

/// The coordinator's directory.
pub struct LobbyCoordinator {
    /// The codes of the live lobbies, each held once.
    pub lobbies: Vec<String>,
    /// Which lobby each tracked client sits in, each client held once.
    pub client_lobbies: Vec<(String, String)>,
}

/// A sequence of strings, viewed.
pub open spec fn strs_view(s: Seq<String>) -> Seq<Seq<char>> {
    s.map_values(|x: String| x@)
}



impl LobbyCoordinator {
    /// Codes and tracked client ids are each held at most once.
    pub open spec fn wf(&self) -> bool {
        &&& forall|i: int, j: int|
            0 <= i < j < self.lobbies@.len() ==> strs_view(self.lobbies@)[i] != strs_view(
                self.lobbies@,
            )[j]
        &&& forall|i: int, j: int|
            0 <= i < j < self.client_lobbies@.len() ==> (#[trigger] rows_view(
                self.client_lobbies@,
            )[i]).0 != (#[trigger] rows_view(self.client_lobbies@)[j]).0
    }

    /// Whether a lobby code is live.
    pub open spec fn spec_has_lobby(&self, code: Seq<char>) -> bool {
        strs_view(self.lobbies@).contains(code)
    }

    /// An empty directory.
    pub fn new() -> (r: LobbyCoordinator)
        ensures
            r.wf(),
            r.lobbies@.len() == 0,
            r.client_lobbies@.len() == 0,
    {
        LobbyCoordinator { lobbies: Vec::new(), client_lobbies: Vec::new() }
    }

    /// Whether the directory knows the code.
    pub fn has_lobby(&self, code: &str) -> (r: bool)
        ensures
            r == self.spec_has_lobby(code@),
    {
        let mut i: usize = 0;
        while i < self.lobbies.len()
            invariant
                i <= self.lobbies@.len(),
                forall|j: int| 0 <= j < i ==> strs_view(self.lobbies@)[j] != code@,
            decreases self.lobbies@.len() - i,
        {
            if crate::talisman_number::str_eq_literal(self.lobbies[i].as_str(), code) {
                proof {
                    assert(strs_view(self.lobbies@)[i as int] == code@);
                }
                return true;
            }
            i = i + 1;
        }
        proof {
            if self.spec_has_lobby(code@) {
                let k = choose|k: int|
                    0 <= k < strs_view(self.lobbies@).len() && strs_view(self.lobbies@)[k]
                        == code@;
            }
        }
        false
    }

    /// Record a newly created lobby under a code the directory does not hold.
    pub fn register_lobby(&mut self, code: String)
        requires
            old(self).wf(),
            !old(self).spec_has_lobby(code@),
        ensures
            final(self).wf(),
            final(self).spec_has_lobby(code@),
            forall|x: Seq<char>|
                #[trigger] final(self).spec_has_lobby(x) <==> (old(self).spec_has_lobby(x) || x
                    == code@),
            final(self).client_lobbies@ == old(self).client_lobbies@,
    {
        let ghost before = strs_view(self.lobbies@);
        self.lobbies.push(code);
        proof {
            assert(strs_view(self.lobbies@) =~= before.push(strs_view(self.lobbies@).last()));
            assert forall|x: Seq<char>| #[trigger]
                strs_view(self.lobbies@).contains(x) <==> (before.contains(x) || x == strs_view(
                    self.lobbies@,
                ).last()) by {
                if strs_view(self.lobbies@).contains(x) {
                    let k = choose|k: int|
                        0 <= k < strs_view(self.lobbies@).len() && strs_view(self.lobbies@)[k]
                            == x;
                    if k < before.len() {
                        assert(before[k] == x);
                    }
                }
                if before.contains(x) {
                    let k = choose|k: int| 0 <= k < before.len() && before[k] == x;
                    assert(strs_view(self.lobbies@)[k] == x);
                }
                if x == strs_view(self.lobbies@).last() {
                    assert(strs_view(self.lobbies@)[before.len() as int] == x);
                }
            }
        }
    }

    /// Track which lobby a client joined; a client already tracked moves to
    /// the new code.
    pub fn record_client(&mut self, client_id: String, code: String)
        requires
            old(self).wf(),
        ensures
            final(self).wf(),
            final(self).lobbies@ == old(self).lobbies@,
            forall|x: (Seq<char>, Seq<char>)|
                #[trigger] rows_view(final(self).client_lobbies@).contains(x) <==> ((rows_view(
                    old(self).client_lobbies@,
                ).contains(x) && x.0 != client_id@) || x == (client_id@, code@)),
    {
        self.forget_client(client_id.as_str());
        let ghost before = rows_view(self.client_lobbies@);
        self.client_lobbies.push((client_id, code));
        proof {
            let after = rows_view(self.client_lobbies@);
            assert(after =~= before.push(after.last()));
            assert forall|x: (Seq<char>, Seq<char>)| #[trigger]
                after.contains(x) <==> (before.contains(x) || x == after.last()) by {
                if after.contains(x) {
                    let k = choose|k: int| 0 <= k < after.len() && after[k] == x;
                    if k < before.len() {
                        assert(before[k] == x);
                    }
                }
                if before.contains(x) {
                    let k = choose|k: int| 0 <= k < before.len() && before[k] == x;
                    assert(after[k] == x);
                }
                if x == after.last() {
                    assert(after[before.len() as int] == x);
                }
            }
            assert(after[before.len() as int] == (client_id@, code@));
            assert forall|i: int, j: int|
                0 <= i < j < after.len() implies (#[trigger] after[i]).0 != (
                #[trigger] after[j]).0 by {
                if j == after.len() - 1 {
                    assert(after[i] == before[i]);
                    assert(before.contains(before[i]));
                    assert(before[i].0 != client_id@);
                }
            }
        }
    }

    /// Drop a client from the tracking table.
    pub fn forget_client(&mut self, client_id: &str)
        requires
            old(self).wf(),
        ensures
            final(self).wf(),
            final(self).lobbies@ == old(self).lobbies@,
            forall|x: (Seq<char>, Seq<char>)|
                #[trigger] rows_view(final(self).client_lobbies@).contains(x) <==> (rows_view(
                    old(self).client_lobbies@,
                ).contains(x) && x.0 != client_id@),
    {
        let mut kept: Vec<(String, String)> = Vec::new();
        let mut i: usize = 0;
        while i < self.client_lobbies.len()
            invariant
                i <= self.client_lobbies@.len(),
                old(self).wf(),
                self.client_lobbies@ == old(self).client_lobbies@,
                rows_view(kept@) =~= keep_rows(
                    rows_view(self.client_lobbies@).take(i as int),
                    client_id@,
                    true,
                ),
            decreases self.client_lobbies@.len() - i,
        {
            proof {
                assert(rows_view(self.client_lobbies@).take(i as int + 1).drop_last()
                    =~= rows_view(self.client_lobbies@).take(i as int));
                assert(rows_view(self.client_lobbies@).take(i as int + 1).last() == rows_view(
                    self.client_lobbies@,
                )[i as int]);
            }
            if !crate::talisman_number::str_eq_literal(
                self.client_lobbies[i].0.as_str(),
                client_id,
            ) {
                let id = self.client_lobbies[i].0.clone();
                let c2 = self.client_lobbies[i].1.clone();
                let ghost kv = rows_view(kept@);
                kept.push((id, c2));
                proof {
                    assert(rows_view(kept@) =~= kv.push(
                        rows_view(self.client_lobbies@)[i as int],
                    ));
                }
            }
            i = i + 1;
        }
        proof {
            assert(rows_view(self.client_lobbies@).take(i as int) =~= rows_view(
                self.client_lobbies@,
            ));
        }
        self.client_lobbies = kept;
        proof {
            lemma_keep_rows(rows_view(old(self).client_lobbies@), client_id@, true);
        }
    }

    /// Which lobby a disconnecting client sat in, if tracked; the client
    /// leaves the table either way.
    pub fn handle_client_disconnected(&mut self, client_id: &str) -> (r: Option<String>)
        requires
            old(self).wf(),
        ensures
            final(self).wf(),
            final(self).lobbies@ == old(self).lobbies@,
            r matches Some(code) ==> rows_view(old(self).client_lobbies@).contains(
                (client_id@, code@),
            ),
            r is None ==> forall|k: int|
                0 <= k < old(self).client_lobbies@.len() ==> (#[trigger] rows_view(
                    old(self).client_lobbies@,
                )[k]).0 != client_id@,
            forall|x: (Seq<char>, Seq<char>)|
                #[trigger] rows_view(final(self).client_lobbies@).contains(x) <==> (rows_view(
                    old(self).client_lobbies@,
                ).contains(x) && x.0 != client_id@),
    {
        let code = self.lookup_client(client_id);
        self.forget_client(client_id);
        code
    }

    /// The code a client is tracked under, if any.
    pub fn lookup_client(&self, client_id: &str) -> (r: Option<String>)
        requires
            self.wf(),
        ensures
            r matches Some(code) ==> rows_view(self.client_lobbies@).contains((client_id@, code@)),
            r is None ==> forall|k: int|
                0 <= k < self.client_lobbies@.len() ==> (#[trigger] rows_view(
                    self.client_lobbies@,
                )[k]).0 != client_id@,
    {
        let mut i: usize = 0;
        while i < self.client_lobbies.len()
            invariant
                i <= self.client_lobbies@.len(),
                forall|j: int|
                    0 <= j < i ==> (#[trigger] rows_view(self.client_lobbies@)[j]).0 != client_id@,
            decreases self.client_lobbies@.len() - i,
        {
            if crate::talisman_number::str_eq_literal(
                self.client_lobbies[i].0.as_str(),
                client_id,
            ) {
                let code = self.client_lobbies[i].1.clone();
                proof {
                    assert(rows_view(self.client_lobbies@)[i as int] == (client_id@, code@));
                }
                return Some(code);
            }
            i = i + 1;
        }
        None
    }

    /// Drop a lobby that shut itself down, and any stale client rows that
    /// still point at it.
    pub fn handle_lobby_shutdown(&mut self, code: &str)
        requires
            old(self).wf(),
        ensures
            final(self).wf(),
            !final(self).spec_has_lobby(code@),
            forall|x: Seq<char>|
                #[trigger] final(self).spec_has_lobby(x) <==> (old(self).spec_has_lobby(x) && x
                    != code@),
            forall|x: (Seq<char>, Seq<char>)|
                #[trigger] rows_view(final(self).client_lobbies@).contains(x) <==> (rows_view(
                    old(self).client_lobbies@,
                ).contains(x) && x.1 != code@),
    {
        let mut kept: Vec<String> = Vec::new();
        let mut i: usize = 0;
        while i < self.lobbies.len()
            invariant
                i <= self.lobbies@.len(),
                old(self).wf(),
                self.lobbies@ == old(self).lobbies@,
                self.client_lobbies@ == old(self).client_lobbies@,
                strs_view(kept@) =~= crate::lobby::broadcaster::remove_one(
                    strs_view(self.lobbies@).take(i as int),
                    code@,
                ),
            decreases self.lobbies@.len() - i,
        {
            proof {
                assert(strs_view(self.lobbies@).take(i as int + 1).drop_last() =~= strs_view(
                    self.lobbies@,
                ).take(i as int));
                assert(strs_view(self.lobbies@).take(i as int + 1).last() == strs_view(
                    self.lobbies@,
                )[i as int]);
            }
            if !crate::talisman_number::str_eq_literal(self.lobbies[i].as_str(), code) {
                let ghost kv = strs_view(kept@);
                let copied = self.lobbies[i].clone();
                kept.push(copied);
                proof {
                    assert(strs_view(kept@) =~= kv.push(strs_view(self.lobbies@)[i as int]));
                }
            }
            i = i + 1;
        }
        proof {
            assert(strs_view(self.lobbies@).take(i as int) =~= strs_view(self.lobbies@));
        }
        self.lobbies = kept;
        let mut kept_clients: Vec<(String, String)> = Vec::new();
        let mut j: usize = 0;
        while j < self.client_lobbies.len()
            invariant
                j <= self.client_lobbies@.len(),
                old(self).wf(),
                self.client_lobbies@ == old(self).client_lobbies@,
                rows_view(kept_clients@) =~= keep_rows(
                    rows_view(self.client_lobbies@).take(j as int),
                    code@,
                    false,
                ),
            decreases self.client_lobbies@.len() - j,
        {
            proof {
                assert(rows_view(self.client_lobbies@).take(j as int + 1).drop_last()
                    =~= rows_view(self.client_lobbies@).take(j as int));
                assert(rows_view(self.client_lobbies@).take(j as int + 1).last() == rows_view(
                    self.client_lobbies@,
                )[j as int]);
            }
            if !crate::talisman_number::str_eq_literal(
                self.client_lobbies[j].1.as_str(),
                code,
            ) {
                let id = self.client_lobbies[j].0.clone();
                let c2 = self.client_lobbies[j].1.clone();
                let ghost kv = rows_view(kept_clients@);
                kept_clients.push((id, c2));
                proof {
                    assert(rows_view(kept_clients@) =~= kv.push(
                        rows_view(self.client_lobbies@)[j as int],
                    ));
                }
            }
            j = j + 1;
        }
        proof {
            assert(rows_view(self.client_lobbies@).take(j as int) =~= rows_view(
                self.client_lobbies@,
            ));
        }
        self.client_lobbies = kept_clients;
        proof {
            crate::lobby::broadcaster::lemma_remove_one(strs_view(old(self).lobbies@), code@);
            lemma_keep_rows(rows_view(old(self).client_lobbies@), code@, false);
        }
    }
}

/// The rows of the tracking table, viewed.
pub open spec fn rows_view(s: Seq<(String, String)>) -> Seq<(Seq<char>, Seq<char>)> {
    s.map_values(|p: (String, String)| (p.0@, p.1@))
}

/// The rows whose key (when `by_key`) or code (otherwise) is not the named
/// one, in order.
pub open spec fn keep_rows(s: Seq<(Seq<char>, Seq<char>)>, gone: Seq<char>, by_key: bool) -> Seq<
    (Seq<char>, Seq<char>),
>
    decreases s.len(),
{
    if s.len() == 0 {
        s
    } else if (if by_key {
        s.last().0
    } else {
        s.last().1
    }) == gone {
        keep_rows(s.drop_last(), gone, by_key)
    } else {
        keep_rows(s.drop_last(), gone, by_key).push(s.last())
    }
}

/// Dropping the named rows keeps exactly the others; unique keys stay
/// unique.
pub proof fn lemma_keep_rows(s: Seq<(Seq<char>, Seq<char>)>, gone: Seq<char>, by_key: bool)
    requires
        forall|i: int, j: int| 0 <= i < j < s.len() ==> s[i].0 != s[j].0,
    ensures
        forall|x: (Seq<char>, Seq<char>)|
            #[trigger] keep_rows(s, gone, by_key).contains(x) <==> (s.contains(x) && (if by_key {
                x.0
            } else {
                x.1
            }) != gone),
        forall|i: int, j: int|
            0 <= i < j < keep_rows(s, gone, by_key).len() ==> keep_rows(s, gone, by_key)[i].0
                != keep_rows(s, gone, by_key)[j].0,
    decreases s.len(),
{
    if s.len() > 0 {
        assert forall|i: int, j: int| 0 <= i < j < s.drop_last().len() implies s.drop_last()[i].0
            != s.drop_last()[j].0 by {
            assert(s[i] == s.drop_last()[i] && s[j] == s.drop_last()[j]);
        }
        lemma_keep_rows(s.drop_last(), gone, by_key);
        let r = keep_rows(s, gone, by_key);
        let rd = keep_rows(s.drop_last(), gone, by_key);
        let kept_last = (if by_key {
            s.last().0
        } else {
            s.last().1
        }) != gone;
        assert forall|x: (Seq<char>, Seq<char>)| #[trigger] r.contains(x) implies (s.contains(x)
            && (if by_key {
            x.0
        } else {
            x.1
        }) != gone) by {
            if kept_last && r == rd.push(s.last()) {
                let k = choose|k: int| 0 <= k < r.len() && r[k] == x;
                if k < rd.len() {
                    assert(rd.contains(x));
                    let w = choose|w: int| 0 <= w < s.drop_last().len() && s.drop_last()[w] == x;
                    assert(s[w] == x);
                } else {
                    assert(x == s.last());
                    assert(s[s.len() - 1] == x);
                }
            } else {
                let w = choose|w: int| 0 <= w < s.drop_last().len() && s.drop_last()[w] == x;
                assert(s[w] == x);
            }
        }
        assert forall|x: (Seq<char>, Seq<char>)|
            (s.contains(x) && (if by_key {
                x.0
            } else {
                x.1
            }) != gone) implies #[trigger] r.contains(x) by {
            let k = choose|k: int| 0 <= k < s.len() && s[k] == x;
            if k < s.len() - 1 {
                assert(s.drop_last()[k] == x);
                assert(rd.contains(x));
                if kept_last {
                    let q = choose|q: int| 0 <= q < rd.len() && rd[q] == x;
                    assert(r[q] == x);
                }
            } else {
                assert(s.last() == x);
                assert(r[r.len() - 1] == x);
            }
        }
        if kept_last {
            assert forall|i: int, j: int| 0 <= i < j < r.len() implies r[i].0 != r[j].0 by {
                if j == r.len() - 1 {
                    assert(r[i] == rd[i]);
                    assert(rd.contains(rd[i]));
                    assert(s.contains(r[i]) && (if by_key {
                        r[i].0
                    } else {
                        r[i].1
                    }) != gone);
                    let w = choose|w: int| 0 <= w < s.len() && s[w] == r[i];
                    assert(s[s.len() - 1] == s.last());
                    if w == s.len() - 1 {
                    } else {
                        assert(s[w].0 != s[s.len() - 1].0);
                    }
                    assert(r[j] == s.last());
                }
            }
        }
    }
}

} // verus!
