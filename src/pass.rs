use vstd::prelude::*;
use crate::err::TokenRingError;
use crate::id::WorkStationId;
use crate::signature::signed_accepts;
use crate::token::{Token, TokenView};

verus! {

/// Whether a station has held the token in the current round.
#[derive(Debug, Clone, Copy, PartialEq, Eq, Structural)]
pub struct StationStatus(pub bool);

/// The monitor's view of the token.
#[derive(Debug, Clone, Copy, PartialEq, Eq, Structural)]
pub enum TokenPassMode {
    /// Nothing passed yet.
    Idle,
    /// Passed to a station; waiting for its return or for the timeout.
    Passed,
    /// Returned by a station; may be passed on.
    Received,
}

/// To whom the token was passed, and when (milliseconds on the monitor's clock).
pub struct TokenState(pub WorkStationId, pub u64);

/// Time passed from `sent` to `now`; a clock that reads earlier than `sent` counts as none.
pub open spec fn elapsed(now: u64, sent: u64) -> int {
    if now >= sent { now - sent } else { 0 }
}

/// The stations' ids, in rotation order.
pub open spec fn status_ids(s: Seq<(Seq<char>, bool)>) -> Seq<Seq<char>> {
    s.map_values(|e: (Seq<char>, bool)| e.0)
}

/// No id occurs twice.
pub open spec fn ids_unique<T>(s: Seq<(Seq<char>, T)>) -> bool {
    forall|i: int, j: int| 0 <= i < j < s.len() ==> #[trigger] s[i].0 != #[trigger] s[j].0
}

/// Whether `id` occurs in the table.
pub open spec fn has_id<T>(s: Seq<(Seq<char>, T)>, id: Seq<char>) -> bool {
    exists|i: int| 0 <= i < s.len() && #[trigger] s[i].0 == id
}

/// The first index at or after `k` of a station that has not held the token this round
/// and is not `skip` (the length if there is none).
pub open spec fn first_unheld(s: Seq<(Seq<char>, bool)>, k: int, skip: Option<Seq<char>>) -> int
    decreases s.len() - k,
{
    if k < 0 || k >= s.len() {
        s.len() as int
    } else if !s[k].1 && skip != Some(s[k].0) {
        k
    } else {
        first_unheld(s, k + 1, skip)
    }
}

/// The first unheld index lies between `k` and the length.
pub proof fn lemma_first_unheld_range(s: Seq<(Seq<char>, bool)>, k: int, skip: Option<Seq<char>>)
    requires
        0 <= k <= s.len(),
    ensures
        k <= first_unheld(s, k, skip) <= s.len(),
        first_unheld(s, k, skip) < s.len() ==> !s[first_unheld(s, k, skip)].1
            && skip != Some(s[first_unheld(s, k, skip)].0),
    decreases s.len() - k,
{
    if k < s.len() && (s[k].1 || skip == Some(s[k].0)) {
        lemma_first_unheld_range(s, k + 1, skip);
    }
}

/// Every station marked as not having held the token.
pub open spec fn all_reset(s: Seq<(Seq<char>, bool)>) -> Seq<(Seq<char>, bool)> {
    s.map_values(|e: (Seq<char>, bool)| (e.0, false))
}

/// Marks `id` as having held the token this round.
pub open spec fn mark_held(s: Seq<(Seq<char>, bool)>, id: Seq<char>) -> Seq<(Seq<char>, bool)> {
    s.map_values(|e: (Seq<char>, bool)| if e.0 == id { (e.0, true) } else { e })
}

/// Per-round bookkeeping of the monitor: the current token, where it is, and which
/// stations have held it this round, in the order they joined.
pub struct TokenPasser {
    curr_token: Option<Token>,
    state: Option<TokenState>,
    pass_mode: TokenPassMode,
    max_passover_time: u64,
    station_status: Vec<(WorkStationId, StationStatus)>,
}

impl TokenPasser {
    /// The rotation table: each station's id and whether it held the token this round.
    pub closed spec fn status(&self) -> Seq<(Seq<char>, bool)> {
        self.station_status@.map_values(|e: (WorkStationId, StationStatus)| (e.0@, e.1.0))
    }

    /// The station the token was last passed to, and when.
    pub closed spec fn in_flight(&self) -> Option<(Seq<char>, u64)> {
        match self.state {
            Some(TokenState(id, t)) => Some((id@, t)),
            None => None,
        }
    }

    /// The token that was last returned valid in this round, if any.
    pub closed spec fn token(&self) -> Option<Token> {
        self.curr_token
    }

    /// A copy of the current token.
    pub fn current_token(&self) -> (r: Option<Token>)
        ensures
            r is None <==> self.token() is None,
            r matches Some(t) ==> t@ == self.token()->Some_0@,
    {
        match &self.curr_token {
            Some(t) => Some(t.clone()),
            None => None,
        }
    }

    pub closed spec fn mode(&self) -> TokenPassMode {
        self.pass_mode
    }

    /// How long a holder may keep the token, in milliseconds.
    pub closed spec fn max_passover(&self) -> u64 {
        self.max_passover_time
    }

    pub open spec fn wf(&self) -> bool {
        ids_unique(self.status())
    }

    /// The holder that kept the token longer than allowed without returning it, if any:
    /// the next pass skips it.
    pub open spec fn skipped_holder(&self, now: u64) -> Option<Seq<char>> {
        match self.in_flight() {
            Some((h, sent)) => if self.mode() != TokenPassMode::Received && elapsed(now, sent) > self.max_passover() {
                Some(h)
            } else {
                None
            },
            None => None,
        }
    }

    /// Whether a token returned by `sender` is accepted: it was passed to `sender`,
    /// came back in time, and its header's signature verifies.
    pub open spec fn token_valid(&self, t: TokenView, sender: Seq<char>, now: u64) -> bool {
        match self.in_flight() {
            Some((expected, sent)) => elapsed(now, sent) <= self.max_passover() && signed_accepts(t.header)
                && expected == sender,
            None => false,
        }
    }

    /// An idle passer with no stations; `max_passover_time` is in milliseconds.
    pub fn new(max_passover_time: u64) -> (r: TokenPasser)
        ensures
            r.wf(),
            r.status().len() == 0,
            r.in_flight() is None,
            r.mode() == TokenPassMode::Idle,
            r.max_passover() == max_passover_time,
            r.token() is None,
    {
        let r = TokenPasser {
            curr_token: None,
            state: None,
            pass_mode: TokenPassMode::Idle,
            max_passover_time,
            station_status: Vec::new(),
        };
        assert(r.status() =~= Seq::<(Seq<char>, bool)>::empty());
        r
    }

    /// The token came back, its holder has kept it longer than allowed, or nothing is
    /// outstanding.
    pub open spec fn pass_ready_at(&self, now: u64) -> bool {
        match self.in_flight() {
            Some((_, sent)) => self.mode() == TokenPassMode::Received || elapsed(now, sent) > self.max_passover(),
            None => true,
        }
    }

    /// True when the token came back, when its holder has kept it longer than allowed,
    /// or when nothing is outstanding.
    pub fn pass_ready(&self, now: u64) -> (r: bool)
        ensures
            r == self.pass_ready_at(now),
    {
        match &self.state {
            Some(TokenState(_, sent)) => {
                match self.pass_mode {
                    TokenPassMode::Received => true,
                    _ => {
                        let e: u64 = if now >= *sent { now - *sent } else { 0 };
                        e > self.max_passover_time
                    },
                }
            },
            None => true,
        }
    }

    /// The index of `id` in the rotation table.
    pub fn find_station(&self, id: &WorkStationId) -> (r: Option<usize>)
        ensures
            match r {
                Some(i) => i < self.status().len() && self.status()[i as int].0 == id@,
                None => !has_id(self.status(), id@),
            },
    {
        let mut i: usize = 0;
        while i < self.station_status.len()
            invariant
                i <= self.station_status@.len(),
                self.status().len() == self.station_status@.len(),
                forall|j: int| 0 <= j < i ==> #[trigger] self.status()[j].0 != id@,
            decreases self.station_status@.len() - i,
        {
            if self.station_status[i].0 == *id {
                return Some(i);
            }
            i = i + 1;
        }
        None
    }

    /// The number of stations in the rotation table.
    pub fn station_count(&self) -> (r: usize)
        ensures
            r == self.status().len(),
    {
        self.station_status.len()
    }

    /// Whether `id` has held the token this round; none if `id` is not in the table.
    pub fn held_this_round(&self, id: &WorkStationId) -> (r: Option<bool>)
        ensures
            !has_id(self.status(), id@) ==> r is None,
            forall|i: int| 0 <= i < self.status().len() && #[trigger] self.status()[i].0 == id@ && self.wf()
                ==> r == Some(self.status()[i].1),
    {
        match self.find_station(id) {
            Some(i) => {
                proof {
                    assert forall|k: int| 0 <= k < self.status().len() && #[trigger] self.status()[k].0 == id@ && self.wf()
                        implies k == i by {
                        if k < i { assert(self.status()[k].0 != self.status()[i as int].0); }
                        if k > i { assert(self.status()[i as int].0 != self.status()[k].0); }
                    }
                }
                Some(self.station_status[i].1.0)
            },
            None => None,
        }
    }

    /// Takes back a token from `sender_id`. A sender outside the table is refused and
    /// nothing changes. Otherwise the sender is ticked off for this round and the passer
    /// becomes ready to pass, whether or not the token is valid; a valid token replaces
    /// the current one.
    pub fn recv_token(&mut self, new_token: Token, sender_id: &WorkStationId, now: u64) -> (r: Result<(), TokenRingError>)
        requires
            old(self).wf(),
        ensures
            final(self).wf(),
            final(self).max_passover() == old(self).max_passover(),
            final(self).in_flight() == old(self).in_flight(),
            !has_id(old(self).status(), sender_id@) ==> {
                &&& r matches Err(TokenRingError::InvalidToken(id, t)) && id@ == sender_id@ && t == new_token
                &&& *final(self) == *old(self)
                &&& final(self).status() == old(self).status()
                &&& final(self).mode() == old(self).mode()
                &&& final(self).token() == old(self).token()
            },
            has_id(old(self).status(), sender_id@) ==> {
                &&& final(self).status() == mark_held(old(self).status(), sender_id@)
                &&& final(self).mode() == TokenPassMode::Received
                &&& (r is Ok <==> old(self).token_valid(new_token@, sender_id@, now))
                &&& r is Ok ==> final(self).token() == Some(new_token)
                &&& r matches Err(e) ==> e is InvalidToken && final(self).token() == old(self).token()
            },
    {
        match self.find_station(sender_id) {
            None => Err(TokenRingError::InvalidToken(sender_id.clone(), new_token)),
            Some(i) => {
                let ghost s0 = self.status();
                let id = self.station_status[i].0.clone();
                self.station_status.set(i, (id, StationStatus(true)));
                proof {
                    assert(self.status() =~= mark_held(s0, sender_id@)) by {
                        assert forall|j: int| 0 <= j < s0.len() && j != i implies s0[j].0 != sender_id@ by {
                            if j < i { assert(s0[j].0 != s0[i as int].0); } else { assert(s0[i as int].0 != s0[j].0); }
                        }
                    }
                    assert(ids_unique(self.status())) by {
                        assert forall|a: int, b: int| 0 <= a < b < self.status().len()
                            implies #[trigger] self.status()[a].0 != #[trigger] self.status()[b].0 by {
                            assert(self.status()[a].0 == s0[a].0 && self.status()[b].0 == s0[b].0);
                        }
                    }
                }
                self.pass_mode = TokenPassMode::Received;
                if self.check_token_validity(&new_token, sender_id, now) {
                    self.curr_token = Some(new_token);
                    Ok(())
                } else {
                    Err(TokenRingError::InvalidToken(sender_id.clone(), new_token))
                }
            },
        }
    }

    fn check_token_validity(&self, token: &Token, sender_id: &WorkStationId, now: u64) -> (r: bool)
        ensures
            r == self.token_valid(token@, sender_id@, now),
    {
        match &self.state {
            Some(TokenState(id, sent)) => {
                let e: u64 = if now >= *sent { now - *sent } else { 0 };
                e <= self.max_passover_time && token.header.verify() && *sender_id == *id
            },
            None => false,
        }
    }

    /// Records that the token was passed to `to_id` at `now`.
    pub fn pass_token(&mut self, to_id: WorkStationId, now: u64)
        ensures
            final(self).in_flight() == Some((to_id@, now)),
            final(self).mode() == TokenPassMode::Passed,
            final(self).status() == old(self).status(),
            final(self).max_passover() == old(self).max_passover(),
            final(self).token() == old(self).token(),
    {
        self.state = Some(TokenState(to_id, now));
        self.pass_mode = TokenPassMode::Passed;
    }

    /// Picks the next holder and records the pass. With no stations: none, and nothing
    /// changes. Otherwise the first station in table order that has not held the token
    /// this round, passing over a holder that timed out (it stays unheld); if there is no
    /// such station, the round is over: all are reset, the current token is dropped (a
    /// fresh one is to be minted) and the last station is chosen.
    pub fn select_next_station(&mut self, now: u64) -> (r: Option<WorkStationId>)
        requires
            old(self).wf(),
        ensures
            final(self).wf(),
            final(self).max_passover() == old(self).max_passover(),
            old(self).status().len() == 0 ==> r is None && *final(self) == *old(self) && final(self).status() == old(self).status()
                && final(self).in_flight() == old(self).in_flight() && final(self).mode() == old(self).mode()
                && final(self).token() == old(self).token(),
            old(self).status().len() > 0 ==> ({
                let s = old(self).status();
                let k = first_unheld(s, 0, old(self).skipped_holder(now));
                &&& r matches Some(id)
                &&& final(self).in_flight() == Some((id@, now))
                &&& final(self).mode() == TokenPassMode::Passed
                &&& k < s.len() ==> id@ == s[k].0 && final(self).status() == s
                    && final(self).token() == old(self).token()
                &&& k == s.len() ==> id@ == s[s.len() - 1].0 && final(self).status() == all_reset(s)
                    && final(self).token() is None
            }),
    {
        let n = self.station_status.len();
        if n == 0 {
            return None;
        }
        let ghost s = self.status();
        let ghost skip = self.skipped_holder(now);
        let skip_id: Option<WorkStationId> = match &self.state {
            Some(TokenState(h, sent)) => {
                let e: u64 = if now >= *sent { now - *sent } else { 0 };
                if self.pass_mode != TokenPassMode::Received && e > self.max_passover_time {
                    Some(h.clone())
                } else {
                    None
                }
            },
            None => None,
        };
        assert(match skip_id { Some(h) => skip == Some(h@), None => skip is None });
        let mut i: usize = 0;
        while i < n
            invariant
                n == self.station_status@.len(),
                s == self.status(),
                s.len() == n,
                i <= n,
                first_unheld(s, 0, skip) == first_unheld(s, i as int, skip),
                match skip_id { Some(h) => skip == Some(h@), None => skip is None },
                skip == old(self).skipped_holder(now),
                ids_unique(s),
                *self == *old(self),
            decreases n - i,
        {
            assert(s[i as int].1 == self.station_status@[i as int].1.0);
            assert(s[i as int].0 == self.station_status@[i as int].0@);
            let skipped = match &skip_id {
                Some(h) => self.station_status[i].0 == *h,
                None => false,
            };
            assert(skipped == (skip == Some(s[i as int].0)));
            if !self.station_status[i].1.0 && !skipped {
                assert(first_unheld(s, i as int, skip) == i as int);
                let next = self.station_status[i].0.clone();
                let chosen = next.clone();
                self.pass_token(next, now);
                assert(self.status() == s);
                return Some(chosen);
            }
            i = i + 1;
        }
        let mut j: usize = 0;
        while j < n
            invariant
                n == self.station_status@.len(),
                s.len() == n,
                j <= n,
                first_unheld(s, 0, skip) == n,
                skip == old(self).skipped_holder(now),
                ids_unique(s),
                forall|a: int| 0 <= a < n ==> (#[trigger] self.status()[a]).0 == s[a].0,
                forall|a: int| 0 <= a < j ==> !(#[trigger] self.status()[a]).1,
                forall|a: int| j <= a < n ==> (#[trigger] self.status()[a]) == s[a],
                forall|a: int| 0 <= a < n ==> (#[trigger] self.station_status@[a]).0@ == s[a].0
                    && (self.station_status@[a].1.0 == s[a].1 || a < j),
                self.max_passover_time == old(self).max_passover_time,
                self.curr_token == old(self).curr_token,
                self.state == old(self).state,
            decreases n - j,
        {
            let ghost before = self.station_status@;
            let ghost st_before = self.status();
            assert(forall|a: int| 0 <= a < n ==> #[trigger] st_before[a] == (before[a].0@, before[a].1.0));
            let id = self.station_status[j].0.clone();
            self.station_status.set(j, (id, StationStatus(false)));
            proof {
                assert(self.station_status@ == before.update(j as int, (id, StationStatus(false))));
                assert forall|a: int| 0 <= a < n implies #[trigger] self.status()[a] == (if a == j { (s[a].0, false) } else {
                    (before[a].0@, before[a].1.0) }) && (a < j ==> !self.status()[a].1) by {
                    assert(self.status()[a] == (self.station_status@[a].0@, self.station_status@[a].1.0));
                    assert(st_before[a] == (before[a].0@, before[a].1.0));
                    if a < j {
                        assert(!st_before[a].1);
                    }
                }
            }
            j = j + 1;
        }
        proof {
            assert(self.status() =~= all_reset(s));
            assert(ids_unique(self.status())) by {
                assert forall|a: int, b: int| 0 <= a < b < self.status().len()
                    implies #[trigger] self.status()[a].0 != #[trigger] self.status()[b].0 by {
                    assert(self.status()[a].0 == s[a].0 && self.status()[b].0 == s[b].0);
                }
            }
        }
        self.curr_token = None;
        let last = self.station_status[n - 1].0.clone();
        let chosen = last.clone();
        self.pass_token(last, now);
        Some(chosen)
    }

    /// Appends a new station, not yet having held the token this round.
    pub fn add_station(&mut self, id: WorkStationId)
        requires
            old(self).wf(),
            !has_id(old(self).status(), id@),
        ensures
            final(self).wf(),
            final(self).status() == old(self).status().push((id@, false)),
            final(self).in_flight() == old(self).in_flight(),
            final(self).mode() == old(self).mode(),
            final(self).max_passover() == old(self).max_passover(),
            final(self).token() == old(self).token(),
    {
        let ghost s0 = self.status();
        self.station_status.push((id, StationStatus(false)));
        proof {
            assert(self.status() =~= s0.push((id@, false)));
            assert(ids_unique(self.status())) by {
                assert forall|a: int, b: int| 0 <= a < b < self.status().len()
                    implies #[trigger] self.status()[a].0 != #[trigger] self.status()[b].0 by {
                    if b == s0.len() {
                        assert(s0[a].0 != id@);
                    }
                }
            }
        }
    }

    /// Removes a station from the table, if present.
    pub fn remove_station(&mut self, id: &WorkStationId)
        requires
            old(self).wf(),
        ensures
            final(self).wf(),
            forall|i: int| 0 <= i < old(self).status().len() && #[trigger] old(self).status()[i].0 == id@
                ==> final(self).status() == old(self).status().remove(i),
            !has_id(old(self).status(), id@) ==> final(self).status() == old(self).status(),
            final(self).in_flight() == old(self).in_flight(),
            final(self).mode() == old(self).mode(),
            final(self).max_passover() == old(self).max_passover(),
            final(self).token() == old(self).token(),
    {
        let ghost s0 = self.status();
        match self.find_station(id) {
            Some(i) => {
                self.station_status.remove(i);
                proof {
                    assert(self.status() =~= s0.remove(i as int));
                    assert forall|k: int| 0 <= k < s0.len() && #[trigger] s0[k].0 == id@ implies k == i by {
                        if k < i { assert(s0[k].0 != s0[i as int].0); }
                        if k > i { assert(s0[i as int].0 != s0[k].0); }
                    }
                    assert(ids_unique(self.status())) by {
                        assert forall|a: int, b: int| 0 <= a < b < self.status().len()
                            implies #[trigger] self.status()[a].0 != #[trigger] self.status()[b].0 by {
                            let a0 = if a < i { a } else { a + 1 };
                            let b0 = if b < i { b } else { b + 1 };
                            assert(self.status()[a] == s0[a0] && self.status()[b] == s0[b0]);
                        }
                    }
                }
            },
            None => {},
        }
    }
}

} // verus!
