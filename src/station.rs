use vstd::prelude::*;
use crate::addr::SockAddr;
use crate::err::TokenRingError;
use crate::id::WorkStationId;
use crate::packet::{
    JoinAnswerResult, JoinAnswerView, Packet, PacketHeader, PacketType, PacketTypeView, QueuedPacket,
    queue_view,
};
use crate::pass::{
    TokenPasser, TokenPassMode, has_id, ids_unique, status_ids, mark_held, first_unheld, all_reset,
    lemma_first_unheld_range,
};
use crate::serialize::views;
use crate::signature::{Keypair, Signed, generate_keypair, signed_accepts};
use crate::token::{Token, TokenHeader, TokenFrame, TokenFrameId, TokenFrameType, TokenView, FrameView};

verus! {

/// A station's own identity.
pub struct Config {
    pub id: WorkStationId,
    pub keypair: Keypair,
    pub accept_conns: bool,
}

impl Config {
    /// An identity with a fresh key pair.
    pub fn new(id: WorkStationId) -> (r: Config)
        ensures
            r.id == id,
            r.accept_conns,
    {
        Config { id, keypair: generate_keypair(), accept_conns: true }
    }
}

/// The monitor's admission and timing policy.
pub struct GlobalConfig {
    pub password: String,
    pub accept_connections: bool,
    pub max_connections: u16,
    /// Milliseconds a holder may keep the token.
    pub max_passover_time: u64,
}

impl GlobalConfig {
    pub fn new(password: String, accept_connections: bool, max_connections: u16, max_passover_time: u64) -> (r: GlobalConfig)
        ensures
            r.password == password,
            r.accept_connections == accept_connections,
            r.max_connections == max_connections,
            r.max_passover_time == max_passover_time,
    {
        GlobalConfig { password, accept_connections, max_connections, max_passover_time }
    }
}

/// Every queued packet carries a header naming `id`, signed with `key`, that verifies.
pub open spec fn signed_by(q: Seq<QueuedPacket>, id: Seq<char>, key: Seq<u8>) -> bool {
    forall|i: int| 0 <= i < q.len() ==> {
        &&& (#[trigger] q[i]).0.header@.val == id
        &&& q[i].0.header@.key == key
        &&& signed_accepts(q[i].0.header@)
    }
}

/// The ids of a membership table, in order.
pub open spec fn member_ids(s: Seq<(Seq<char>, SockAddr)>) -> Seq<Seq<char>> {
    s.map_values(|e: (Seq<char>, SockAddr)| e.0)
}

/// Signs a header naming `id` with `keypair`.
fn sign_header(keypair: &Keypair, id: &WorkStationId) -> (r: Signed<PacketHeader>)
    requires
        vstd::utf8::encode_utf8(id@).len() <= 8,
    ensures
        r@.val == id@,
        r@.key == keypair.public_view(),
        signed_accepts(r@),
{
    match Signed::new(keypair, PacketHeader::new(id.clone())) {
        Ok(h) => h,
        Err(_) => vstd::pervasive::unreached(),
    }
}

/// `id` is registered at `addr`.
pub open spec fn has_entry(s: Seq<(Seq<char>, SockAddr)>, id: Seq<char>, addr: SockAddr) -> bool {
    exists|i: int| 0 <= i < s.len() && #[trigger] s[i] == (id, addr)
}

/// The table after `id` joins from `addr`: a known id gets the new address, a new id
/// is appended.
pub open spec fn joined(s: Seq<(Seq<char>, SockAddr)>, id: Seq<char>, addr: SockAddr) -> Seq<(Seq<char>, SockAddr)> {
    if has_id(s, id) {
        s.map_values(|e: (Seq<char>, SockAddr)| if e.0 == id { (id, addr) } else { e })
    } else {
        s.push((id, addr))
    }
}

/// The one packet queued by a step: the outbox grew by exactly `m` to `addr`.
pub open spec fn queued_one(before: Seq<QueuedPacket>, after: Seq<QueuedPacket>, m: PacketTypeView, addr: SockAddr) -> bool {
    queue_view(after) == queue_view(before).push((m, addr))
}

/// Nothing observable changed.
pub open spec fn unchanged(a: &ActiveStation, b: &ActiveStation) -> bool {
    &&& b.members() == a.members()
    &&& b.passer() == a.passer()
    &&& b.outbox() == a.outbox()
    &&& b.id_view() == a.id_view()
    &&& b.public_key() == a.public_key()
    &&& b.policy() == a.policy()
}

/// A join request is refused: the same id is already registered at the same address,
/// joining is closed, the ring is full, or the password is wrong.
pub open spec fn join_refused(a: &ActiveStation, id: Seq<char>, addr: SockAddr, pw: Seq<char>) -> bool {
    ||| has_entry(a.members(), id, addr)
    ||| !a.policy().1
    ||| a.members().len() >= a.policy().2
    ||| pw != a.policy().0
}

/// What a join request from `id` at `addr` with password `pw` does.
pub open spec fn join_post(a: &ActiveStation, b: &ActiveStation, id: Seq<char>, addr: SockAddr, pw: Seq<char>,
    r: Result<(), TokenRingError>) -> bool {
    &&& b.id_view() == a.id_view()
    &&& b.public_key() == a.public_key()
    &&& b.policy() == a.policy()
    &&& join_refused(a, id, addr, pw) ==> {
        &&& (r matches Err(TokenRingError::RejectedJoinAttempt(i, _)) && i@ == id)
        &&& b.members() == a.members()
        &&& b.passer() == a.passer()
        &&& b.outbox().len() == a.outbox().len() + 1
        &&& queue_view(b.outbox()).drop_last() == queue_view(a.outbox())
        &&& (queue_view(b.outbox()).last() matches (PacketTypeView::JoinReply(JoinAnswerView::Deny(_)), to) && to == addr)
    }
    &&& !join_refused(a, id, addr, pw) ==> {
        &&& r is Ok
        &&& b.members() == joined(a.members(), id, addr)
        &&& b.passer().status() == if has_id(a.members(), id) { a.passer().status() } else {
            a.passer().status().push((id, false)) }
        &&& b.passer().in_flight() == a.passer().in_flight()
        &&& b.passer().mode() == a.passer().mode()
        &&& b.passer().max_passover() == a.passer().max_passover()
        &&& b.passer().token() == a.passer().token()
        &&& queued_one(a.outbox(), b.outbox(), PacketTypeView::JoinReply(JoinAnswerView::Confirm(a.id_view())), addr)
    }
}

/// What a returned token from `id` at `addr` does.
pub open spec fn token_post(a: &ActiveStation, b: &ActiveStation, id: Seq<char>, addr: SockAddr, t: Token, now: u64,
    r: Result<(), TokenRingError>) -> bool {
    &&& (exists|i: int| 0 <= i < a.members().len() && #[trigger] a.members()[i].0 == id && a.members()[i].1 != addr) ==> {
        &&& (r matches Err(TokenRingError::InvalidToken(i, tok)) && i@ == id && tok == t)
        &&& unchanged(a, b)
    }
    &&& (forall|i: int| 0 <= i < a.members().len() && #[trigger] a.members()[i].0 == id ==> a.members()[i].1 == addr) ==> {
        &&& b.members() == a.members()
        &&& b.outbox() == a.outbox()
        &&& b.id_view() == a.id_view()
        &&& b.public_key() == a.public_key()
        &&& b.policy() == a.policy()
        &&& b.passer().in_flight() == a.passer().in_flight()
        &&& b.passer().max_passover() == a.passer().max_passover()
        &&& !has_id(a.members(), id) ==> (r matches Err(TokenRingError::InvalidToken(_, _)) && b.passer() == a.passer())
        &&& has_id(a.members(), id) ==> {
            &&& b.passer().status() == mark_held(a.passer().status(), id)
            &&& b.passer().mode() == TokenPassMode::Received
            &&& (r is Ok <==> a.passer().token_valid(t@, id, now))
            &&& r is Ok ==> b.passer().token() == Some(t)
            &&& r is Err ==> b.passer().token() == a.passer().token()
        }
    }
}

/// What a leave notice from `id` at `addr` does.
pub open spec fn leave_post(a: &ActiveStation, b: &ActiveStation, id: Seq<char>, addr: SockAddr,
    r: Result<(), TokenRingError>) -> bool {
    &&& !has_entry(a.members(), id, addr) ==> {
        &&& (r matches Err(TokenRingError::StationNotRegistered(i, ad)) && i@ == id && ad == addr)
        &&& unchanged(a, b)
    }
    &&& forall|i: int| 0 <= i < a.members().len() && #[trigger] a.members()[i] == (id, addr) ==> {
        &&& r is Ok
        &&& b.members() == a.members().remove(i)
        &&& b.passer().status() == a.passer().status().remove(i)
        &&& b.passer().in_flight() == a.passer().in_flight()
        &&& b.passer().mode() == a.passer().mode()
        &&& b.passer().token() == a.passer().token()
        &&& b.outbox() == a.outbox()
        &&& b.id_view() == a.id_view()
        &&& b.policy() == a.policy()
    }
}

/// A token freshly minted by the station `id` with key `key`: no frames, and a header
/// naming `id` whose signature verifies.
pub open spec fn minted_by(t: TokenView, id: Seq<char>, key: Seq<u8>) -> bool {
    &&& t.frames.len() == 0
    &&& t.header.val.origin == id
    &&& t.header.key == key
    &&& signed_accepts(t.header)
}

/// What passing the token does: the next station is chosen as the token passer says,
/// and one `TokenPass` packet to its address is queued, carrying the current token or,
/// at the start of a round, a freshly minted one.
pub open spec fn pass_post(a: &ActiveStation, b: &ActiveStation, now: u64, r: Result<(), TokenRingError>) -> bool {
    let s = a.passer().status();
    let k = first_unheld(s, 0, a.passer().skipped_holder(now));
    let c = if k < s.len() { k } else { s.len() - 1 };
    &&& b.id_view() == a.id_view()
    &&& b.public_key() == a.public_key()
    &&& b.policy() == a.policy()
    &&& s.len() == 0 ==> (r matches Err(e) && e is EmptyRing) && unchanged(a, b)
    &&& s.len() > 0 ==> {
        &&& r is Ok
        &&& b.members() == a.members()
        &&& b.passer().in_flight() == Some((s[c].0, now))
        &&& b.passer().mode() == TokenPassMode::Passed
        &&& b.passer().max_passover() == a.passer().max_passover()
        &&& k < s.len() ==> b.passer().status() == s && b.passer().token() == a.passer().token()
        &&& k == s.len() ==> b.passer().status() == all_reset(s) && b.passer().token() is None
        &&& b.outbox().len() == a.outbox().len() + 1
        &&& queue_view(b.outbox()).drop_last() == queue_view(a.outbox())
        &&& queue_view(b.outbox()).last().1 == a.members()[c].1
        &&& queue_view(b.outbox()).last().0 matches PacketTypeView::TokenPass(tv) && {
            if k < s.len() && a.passer().token() is Some {
                tv == a.passer().token()->Some_0@
            } else {
                minted_by(tv, a.id_view(), a.public_key())
            }
        }
    }
}

/// What handling one received packet does (see `ActiveStation::recv_packet`).
pub open spec fn recv_post(a: &ActiveStation, b: &ActiveStation, packet: QueuedPacket, now: u64,
    r: Result<(), TokenRingError>) -> bool {
    let src = packet.0.header@.val;
    let addr = packet.1;
    let known = has_id(a.members(), src);
    &&& !signed_accepts(packet.0.header@) ==> (r matches Err(e) && e is InvalidSignature) && unchanged(a, b)
    &&& signed_accepts(packet.0.header@) ==> match packet.0.content {
        PacketType::JoinRequest(pw) => join_post(a, b, src, addr, pw@, r),
        PacketType::JoinReply(_) => known ==> r is Ok && unchanged(a, b),
        PacketType::TokenPass(t) => known ==> token_post(a, b, src, addr, t, now, r),
        PacketType::Leave => known ==> leave_post(a, b, src, addr, r),
    }
    &&& signed_accepts(packet.0.header@) && !(packet.0.content is JoinRequest) && !known ==>
        (r matches Err(TokenRingError::StationNotRegistered(i, ad)) && i@ == src && ad == addr) && unchanged(a, b)
}

/// The errors among a sequence of results, in order.
pub open spec fn errors_of(rs: Seq<Result<(), TokenRingError>>) -> Seq<TokenRingError>
    decreases rs.len(),
{
    if rs.len() == 0 {
        Seq::empty()
    } else {
        errors_of(rs.drop_last()) + match rs.last() {
            Ok(()) => Seq::<TokenRingError>::empty(),
            Err(e) => seq![e],
        }
    }
}

/// The monitor: admits stations and circulates the token among them.
pub struct ActiveStation {
    config: Config,
    global_config: GlobalConfig,
    connected_stations: Vec<(WorkStationId, SockAddr)>,
    token_passer: TokenPasser,
    send_queue: Vec<QueuedPacket>,
}

impl ActiveStation {
    /// The membership table: each station's id and address, in the order they joined.
    pub closed spec fn members(&self) -> Seq<(Seq<char>, SockAddr)> {
        self.connected_stations@.map_values(|e: (WorkStationId, SockAddr)| (e.0@, e.1))
    }

    /// The token passer's state.
    pub closed spec fn passer(&self) -> TokenPasser {
        self.token_passer
    }

    /// The packets waiting to be sent, oldest first.
    pub closed spec fn outbox(&self) -> Seq<QueuedPacket> {
        self.send_queue@
    }

    pub closed spec fn id_view(&self) -> Seq<char> {
        self.config.id@
    }

    pub closed spec fn public_key(&self) -> Seq<u8> {
        self.config.keypair.public_view()
    }

    pub closed spec fn policy(&self) -> (Seq<char>, bool, u16) {
        (self.global_config.password@, self.global_config.accept_connections, self.global_config.max_connections)
    }

    /// The membership table and the rotation table list the same ids in the same
    /// order; every outgoing packet is signed by this station.
    pub closed spec fn wf(&self) -> bool {
        &&& self.token_passer.wf()
        &&& member_ids(self.members()) == status_ids(self.token_passer.status())
        &&& vstd::utf8::encode_utf8(self.config.id@).len() <= 8
        &&& signed_by(self.send_queue@, self.config.id@, self.config.keypair.public_view())
    }

    /// A monitor named `id` with no members and nothing to send.
    pub fn host(id: WorkStationId, global_config: GlobalConfig) -> (r: ActiveStation)
        requires
            vstd::utf8::encode_utf8(id@).len() <= 8,
        ensures
            r.wf(),
            r.members().len() == 0,
            r.passer().status().len() == 0,
            r.passer().in_flight() is None,
            r.passer().max_passover() == global_config.max_passover_time,
            r.outbox().len() == 0,
            r.id_view() == id@,
            r.policy() == (global_config.password@, global_config.accept_connections, global_config.max_connections),
    {
        let token_passer = TokenPasser::new(global_config.max_passover_time);
        let r = ActiveStation {
            config: Config::new(id),
            global_config,
            connected_stations: Vec::new(),
            token_passer,
            send_queue: Vec::new(),
        };
        assert(r.members() =~= Seq::<(Seq<char>, SockAddr)>::empty());
        assert(member_ids(r.members()) =~= status_ids(r.token_passer.status()));
        r
    }

    /// This station's id.
    pub fn id(&self) -> (r: &WorkStationId)
        ensures
            r@ == self.id_view(),
    {
        &self.config.id
    }

    /// The number of members.
    pub fn member_count(&self) -> (r: usize)
        ensures
            r == self.members().len(),
    {
        self.connected_stations.len()
    }

    /// The token passer.
    pub fn token_passer(&self) -> (r: &TokenPasser)
        ensures
            *r == self.passer(),
    {
        &self.token_passer
    }

    /// Clears the outbox and hands its packets over, oldest first.
    pub fn take_outbox(&mut self) -> (r: Vec<QueuedPacket>)
        requires
            old(self).wf(),
        ensures
            final(self).wf(),
            r@ == old(self).outbox(),
            final(self).outbox().len() == 0,
            final(self).members() == old(self).members(),
            final(self).passer() == old(self).passer(),
            signed_by(r@, old(self).id_view(), old(self).public_key()),
    {
        let mut out: Vec<QueuedPacket> = Vec::new();
        std::mem::swap(&mut out, &mut self.send_queue);
        out
    }

    /// Signs a header and queues `packet` for `dest_addr`.
    fn send_packet(&mut self, dest_addr: SockAddr, packet: PacketType)
        requires
            old(self).wf(),
        ensures
            final(self).wf(),
            queue_view(final(self).outbox()) == queue_view(old(self).outbox()).push((packet@, dest_addr)),
            final(self).outbox().len() == old(self).outbox().len() + 1,
            final(self).members() == old(self).members(),
            final(self).passer() == old(self).passer(),
            final(self).id_view() == old(self).id_view(),
            final(self).public_key() == old(self).public_key(),
            final(self).policy() == old(self).policy(),
    {
        let header = sign_header(&self.config.keypair, &self.config.id);
        let ghost q0 = self.send_queue@;
        let qp = QueuedPacket(Packet::new(header, packet), dest_addr);
        self.send_queue.push(qp);
        assert(queue_view(self.send_queue@) =~= queue_view(q0).push((packet@, dest_addr)));
        assert(signed_by(self.send_queue@, self.config.id@, self.config.keypair.public_view())) by {
            assert forall|i: int| 0 <= i < self.send_queue@.len() implies {
                &&& (#[trigger] self.send_queue@[i]).0.header@.val == self.config.id@
                &&& self.send_queue@[i].0.header@.key == self.config.keypair.public_view()
                &&& signed_accepts(self.send_queue@[i].0.header@)
            } by {
                if i < q0.len() {
                    assert(self.send_queue@[i] == q0[i]);
                }
            }
        }
    }

    /// The index of `id` in the membership table.
    fn find_member(&self, id: &WorkStationId) -> (r: Option<usize>)
        requires
            self.wf(),
        ensures
            match r {
                Some(i) => i < self.members().len() && self.members()[i as int].0 == id@,
                None => !has_id(self.members(), id@),
            },
    {
        let mut i: usize = 0;
        while i < self.connected_stations.len()
            invariant
                i <= self.connected_stations@.len(),
                self.members().len() == self.connected_stations@.len(),
                forall|j: int| 0 <= j < i ==> #[trigger] self.members()[j].0 != id@,
            decreases self.connected_stations@.len() - i,
        {
            assert(self.members()[i as int].0 == self.connected_stations@[i as int].0@);
            if self.connected_stations[i].0 == *id {
                return Some(i);
            }
            i = i + 1;
        }
        None
    }

    /// The address registered for `id`.
    pub fn get_station_addr(&self, id: &WorkStationId) -> (r: Option<SockAddr>)
        requires
            self.wf(),
        ensures
            !has_id(self.members(), id@) ==> r is None,
            forall|i: int| 0 <= i < self.members().len() && #[trigger] self.members()[i].0 == id@
                ==> r == Some(self.members()[i].1),
    {
        proof {
            self.lemma_members_unique();
        }
        match self.find_member(id) {
            Some(i) => {
                assert(self.members()[i as int].1 == self.connected_stations@[i as int].1);
                Some(self.connected_stations[i].1)
            },
            None => None,
        }
    }

    /// Registers `id` at `addr`: a known id gets the new address, a new one is appended
    /// to both tables.
    fn add_station(&mut self, id: WorkStationId, addr: SockAddr)
        requires
            old(self).wf(),
        ensures
            final(self).wf(),
            final(self).members() == joined(old(self).members(), id@, addr),
            final(self).passer().status() == if has_id(old(self).members(), id@) { old(self).passer().status() } else {
                old(self).passer().status().push((id@, false)) },
            final(self).passer().in_flight() == old(self).passer().in_flight(),
            final(self).passer().mode() == old(self).passer().mode(),
            final(self).passer().max_passover() == old(self).passer().max_passover(),
            final(self).passer().token() == old(self).passer().token(),
            final(self).outbox() == old(self).outbox(),
            final(self).id_view() == old(self).id_view(),
            final(self).public_key() == old(self).public_key(),
            final(self).policy() == old(self).policy(),
    {
        proof {
            self.lemma_members_unique();
        }
        let ghost m0 = self.members();
        let ghost s0 = self.token_passer.status();
        match self.find_member(&id) {
            Some(i) => {
                let ghost v0 = self.connected_stations@;
                self.connected_stations.set(i, (id, addr));
                proof {
                    assert forall|k: int| 0 <= k < m0.len() && k != i implies #[trigger] m0[k].0 != m0[i as int].0 by {
                        if k < i { assert(m0[k].0 != m0[i as int].0); } else { assert(m0[i as int].0 != m0[k].0); }
                    }
                    assert forall|k: int| 0 <= k < m0.len() implies #[trigger] m0[k] == (v0[k].0@, v0[k].1) by {}
                    assert(self.members() =~= joined(m0, m0[i as int].0, addr));
                    assert(member_ids(self.members()) =~= member_ids(m0));
                }
            },
            None => {
                let ghost idv = id@;
                assert(!has_id(s0, idv)) by {
                    if has_id(s0, idv) {
                        let k = choose|k: int| 0 <= k < s0.len() && #[trigger] s0[k].0 == idv;
                        self.lemma_ids_at(k);
                    }
                }
                let id2 = id.clone();
                self.connected_stations.push((id, addr));
                self.token_passer.add_station(id2);
                proof {
                    assert(self.members() =~= m0.push((idv, addr)));
                    assert(member_ids(self.members()) =~= member_ids(m0).push(idv));
                    assert(status_ids(self.token_passer.status()) =~= status_ids(s0).push(idv));
                }
            },
        }
    }

    /// Unregisters the station at index `i` from both tables.
    fn remove_station_at(&mut self, i: usize)
        requires
            old(self).wf(),
            i < old(self).members().len(),
        ensures
            final(self).wf(),
            final(self).members() == old(self).members().remove(i as int),
            final(self).passer().status() == old(self).passer().status().remove(i as int),
            final(self).passer().in_flight() == old(self).passer().in_flight(),
            final(self).passer().mode() == old(self).passer().mode(),
            final(self).passer().max_passover() == old(self).passer().max_passover(),
            final(self).passer().token() == old(self).passer().token(),
            final(self).outbox() == old(self).outbox(),
            final(self).id_view() == old(self).id_view(),
            final(self).public_key() == old(self).public_key(),
            final(self).policy() == old(self).policy(),
    {
        proof {
            self.lemma_members_unique();
        }
        let ghost m0 = self.members();
        let ghost s0 = self.token_passer.status();
        let ghost v0 = self.connected_stations@;
        let (id, _) = self.connected_stations.remove(i);
        proof {
            assert(m0[i as int] == (v0[i as int].0@, v0[i as int].1));
            assert(self.members() =~= m0.remove(i as int));
            old(self).lemma_ids_at(i as int);
            assert(s0[i as int].0 == id@);
        }
        self.token_passer.remove_station(&id);
        proof {
            assert(self.token_passer.status() == s0.remove(i as int));
            assert forall|k: int| 0 <= k < m0.len() - 1 implies #[trigger] self.members()[k].0 == self.token_passer.status()[k].0 by {
                old(self).lemma_ids_at(if k < i { k } else { k + 1 });
            }
            old(self).lemma_ids_at(i as int);
            assert(member_ids(self.members()) =~= status_ids(self.token_passer.status()));
        }
    }

    /// Why a join of `join_id` with `pw` is refused on policy grounds, if it is.
    fn check_join_request(&self, join_id: &WorkStationId, pw: &String) -> (r: Result<(), TokenRingError>)
        ensures
            r is Ok <==> (self.policy().1 && self.members().len() < self.policy().2 && pw@ == self.policy().0),
            r matches Err(e) ==> (e matches TokenRingError::RejectedJoinAttempt(i, _) && i@ == join_id@),
    {
        if !self.global_config.accept_connections {
            Err(TokenRingError::RejectedJoinAttempt(join_id.clone(), "New connections blocked".to_owned()))
        } else if self.connected_stations.len() >= self.global_config.max_connections as usize {
            Err(TokenRingError::RejectedJoinAttempt(join_id.clone(), "Max connections reached".to_owned()))
        } else if self.global_config.password != *pw {
            Err(TokenRingError::RejectedJoinAttempt(join_id.clone(), "Incorrect password".to_owned()))
        } else {
            Ok(())
        }
    }

    /// Handles a join request from `join_id` at `join_addr`: refused (a `Deny` reply is
    /// queued) if the same id is registered at the same address, if joining is closed,
    /// if the ring is full or if the password is wrong; otherwise the station is
    /// registered and a `Confirm` reply naming this monitor is queued.
    pub fn recv_join_request(&mut self, join_addr: SockAddr, join_id: WorkStationId, pw: String) -> (r: Result<(), TokenRingError>)
        requires
            old(self).wf(),
        ensures
            final(self).wf(),
            join_post(old(self), final(self), join_id@, join_addr, pw@, r),
    {
        proof {
            self.lemma_members_unique();
        }
        match self.find_member(&join_id) {
            Some(i) => {
                if self.connected_stations[i].1.same(&join_addr) {
                    assert(self.members()[i as int] == (join_id@, join_addr));
                    self.send_packet(join_addr, PacketType::JoinReply(JoinAnswerResult::Deny("Already joined".to_owned())));
                    assert(queue_view(self.outbox()).drop_last() =~= queue_view(old(self).outbox()));
                    assert(join_refused(old(self), join_id@, join_addr, pw@));
                    return Err(TokenRingError::RejectedJoinAttempt(join_id, "Already Joined".to_owned()));
                }
                assert forall|k: int| 0 <= k < self.members().len() implies #[trigger] self.members()[k] != (join_id@, join_addr) by {
                    if k != i {
                        if k < i { assert(self.members()[k].0 != self.members()[i as int].0); }
                        else { assert(self.members()[i as int].0 != self.members()[k].0); }
                    }
                }
            },
            None => {
                assert(!has_entry(self.members(), join_id@, join_addr)) by {
                    if has_entry(self.members(), join_id@, join_addr) {
                        let k = choose|k: int| 0 <= k < self.members().len() && #[trigger] self.members()[k] == (join_id@, join_addr);
                        assert(self.members()[k].0 == join_id@);
                    }
                }
            },
        }
        assert(!has_entry(self.members(), join_id@, join_addr));
        match self.check_join_request(&join_id, &pw) {
            Err(e) => {
                self.send_packet(join_addr, PacketType::JoinReply(JoinAnswerResult::Deny("Invalid config".to_owned())));
                assert(queue_view(self.outbox()).drop_last() =~= queue_view(old(self).outbox()));
                Err(e)
            },
            Ok(()) => {
                let reply = PacketType::JoinReply(JoinAnswerResult::Confirm(self.config.id.clone()));
                self.send_packet(join_addr, reply);
                self.add_station(join_id, join_addr);
                Ok(())
            },
        }
    }

    /// Takes back the token from `id` at `addr`: refused if `id` is registered at
    /// another address; otherwise handed to the token passer.
    fn recv_token_pass(&mut self, addr: SockAddr, id: &WorkStationId, token: Token, now: u64) -> (r: Result<(), TokenRingError>)
        requires
            old(self).wf(),
        ensures
            final(self).wf(),
            token_post(old(self), final(self), id@, addr, token, now, r),
    {
        proof {
            self.lemma_members_unique();
        }
        match self.find_member(id) {
            Some(i) => {
                if !self.connected_stations[i].1.same(&addr) {
                    assert(self.members()[i as int].1 != addr);
                    return Err(TokenRingError::InvalidToken(id.clone(), token));
                }
                assert forall|k: int| 0 <= k < self.members().len() && #[trigger] self.members()[k].0 == id@
                    implies self.members()[k].1 == addr by {
                    if k < i { assert(self.members()[k].0 != self.members()[i as int].0); }
                    if k > i { assert(self.members()[i as int].0 != self.members()[k].0); }
                }
            },
            None => {
                assert forall|k: int| 0 <= k < self.members().len() implies !(#[trigger] self.members()[k].0 == id@) by {}
            },
        }
        proof {
            assert(has_id(self.members(), id@) <==> has_id(self.token_passer.status(), id@)) by {
                if has_id(self.members(), id@) {
                    let k = choose|k: int| 0 <= k < self.members().len() && #[trigger] self.members()[k].0 == id@;
                    self.lemma_ids_at(k);
                }
                if has_id(self.token_passer.status(), id@) {
                    let k = choose|k: int| 0 <= k < self.token_passer.status().len() && #[trigger] self.token_passer.status()[k].0 == id@;
                    self.lemma_ids_at(k);
                }
            }
        }
        let ghost s0 = self.token_passer.status();
        let r = self.token_passer.recv_token(token, id, now);
        proof {
            if has_id(s0, id@) {
                assert(status_ids(mark_held(s0, id@)) =~= status_ids(s0));
            }
            assert(member_ids(self.members()) =~= status_ids(self.token_passer.status()));
        }
        r
    }

    /// Removes `id` if it is registered at `addr`.
    fn recv_leave(&mut self, addr: SockAddr, id: &WorkStationId) -> (r: Result<(), TokenRingError>)
        requires
            old(self).wf(),
        ensures
            final(self).wf(),
            leave_post(old(self), final(self), id@, addr, r),
    {
        proof {
            self.lemma_members_unique();
        }
        match self.find_member(id) {
            Some(i) => {
                if self.connected_stations[i].1.same(&addr) {
                    proof {
                        assert forall|k: int| 0 <= k < self.members().len() && #[trigger] self.members()[k] == (id@, addr)
                            implies k == i by {
                            if k < i { assert(self.members()[k].0 != self.members()[i as int].0); }
                            if k > i { assert(self.members()[i as int].0 != self.members()[k].0); }
                        }
                    }
                    self.remove_station_at(i);
                    return Ok(());
                }
                assert(!has_entry(self.members(), id@, addr)) by {
                    if has_entry(self.members(), id@, addr) {
                        let k = choose|k: int| 0 <= k < self.members().len() && #[trigger] self.members()[k] == (id@, addr);
                        if k < i { assert(self.members()[k].0 != self.members()[i as int].0); }
                        if k > i { assert(self.members()[i as int].0 != self.members()[k].0); }
                    }
                }
            },
            None => {
                assert(!has_entry(self.members(), id@, addr)) by {
                    if has_entry(self.members(), id@, addr) {
                        let k = choose|k: int| 0 <= k < self.members().len() && #[trigger] self.members()[k] == (id@, addr);
                        assert(self.members()[k].0 == id@);
                    }
                }
            },
        }
        Err(TokenRingError::StationNotRegistered(id.clone(), addr))
    }

    /// Checks a received packet: its header's signature must verify, and anything but a
    /// join request must come from a registered id.
    fn verify_recv_packet(&self, packet: &QueuedPacket) -> (r: Result<(), TokenRingError>)
        requires
            self.wf(),
        ensures
            !signed_accepts(packet.0.header@) ==> (r matches Err(e) && e is InvalidSignature),
            signed_accepts(packet.0.header@) && !(packet.0.content is JoinRequest) && !has_id(self.members(), packet.0.header@.val)
                ==> (r matches Err(TokenRingError::StationNotRegistered(i, a)) && i@ == packet.0.header@.val && a == packet.1),
            r is Ok <==> signed_accepts(packet.0.header@)
                && (packet.0.content is JoinRequest || has_id(self.members(), packet.0.header@.val)),
    {
        if !packet.0.header.verify() {
            return Err(TokenRingError::InvalidSignature);
        }
        match &packet.0.content {
            PacketType::JoinRequest(_) => Ok(()),
            _ => {
                let source = &packet.0.header.value().source;
                match self.find_member(source) {
                    Some(_) => Ok(()),
                    None => Err(TokenRingError::StationNotRegistered(source.clone(), packet.1)),
                }
            },
        }
    }

    /// Handles one received packet. A packet whose signature fails, or a packet other than
    /// a join request from an unregistered id, is refused and changes nothing. A join
    /// request is admitted or refused, a join reply is ignored, a token is taken back and a
    /// leave notice unregisters its sender.
    pub fn recv_packet(&mut self, packet: QueuedPacket, now: u64) -> (r: Result<(), TokenRingError>)
        requires
            old(self).wf(),
        ensures
            final(self).wf(),
            recv_post(old(self), final(self), packet, now, r),
    {
        self.verify_recv_packet(&packet)?;
        let QueuedPacket(p, addr) = packet;
        let Packet { header, content } = p;
        let source = header.into_value().source;
        match content {
            PacketType::JoinRequest(pw) => self.recv_join_request(addr, source, pw),
            PacketType::JoinReply(_) => Ok(()),
            PacketType::TokenPass(token) => self.recv_token_pass(addr, &source, token, now),
            PacketType::Leave => self.recv_leave(addr, &source),
        }
    }

    /// Handles every packet in `packets`, in order; a refused packet does not stop the
    /// rest. Returns the refusals, in order.
    pub fn recv_all(&mut self, packets: Vec<QueuedPacket>, now: u64) -> (r: Vec<TokenRingError>)
        requires
            old(self).wf(),
        ensures
            final(self).wf(),
            exists|st: Seq<ActiveStation>, rs: Seq<Result<(), TokenRingError>>| {
                &&& st.len() == packets@.len() + 1
                &&& rs.len() == packets@.len()
                &&& st[0] == *old(self)
                &&& st.last() == *final(self)
                &&& r@ == errors_of(rs)
                &&& forall|i: int| 0 <= i < rs.len() ==> #[trigger] recv_post(&st[i], &st[i + 1], packets@[i], now, rs[i])
            },
            packets@.len() == 0 ==> r@.len() == 0 && unchanged(old(self), final(self)),
    {
        let ghost orig = packets@;
        let total: usize = packets.len();
        let ghost mut st: Seq<ActiveStation> = seq![*self];
        let ghost mut rs: Seq<Result<(), TokenRingError>> = Seq::empty();
        let mut errors: Vec<TokenRingError> = Vec::new();
        let mut packets = packets;
        let mut k: usize = 0;
        proof {
            assert(packets@ =~= orig.skip(0));
            assert(errors@ =~= errors_of(rs));
        }
        while packets.len() > 0
            invariant
                self.wf(),
                total == orig.len(),
                k + packets@.len() == orig.len(),
                packets@ == orig.skip(k as int),
                st.len() == k + 1,
                rs.len() == k,
                st[0] == *old(self),
                st.last() == *self,
                errors@ == errors_of(rs),
                forall|i: int| 0 <= i < k ==> #[trigger] recv_post(&st[i], &st[i + 1], orig[i], now, rs[i]),
            decreases packets@.len(),
        {
            let p = packets.remove(0);
            assert(p == orig[k as int]);
            let res = self.recv_packet(p, now);
            let ghost r0 = res;
            match res {
                Ok(()) => {},
                Err(e) => {
                    errors.push(e);
                },
            }
            proof {
                let ghost rs_old = rs;
                st = st.push(*self);
                rs = rs.push(r0);
                assert(rs.drop_last() =~= rs_old);
                assert(rs.last() == r0);
                assert(packets@ =~= orig.skip(k + 1));
                match r0 {
                    Ok(()) => { assert(errors@ =~= errors_of(rs.drop_last()) + Seq::<TokenRingError>::empty()); },
                    Err(e) => { assert(errors@ =~= errors_of(rs.drop_last()) + seq![e]); },
                }
            }
            k = k + 1;
        }
        errors
    }

    /// A fresh token signed by this station.
    fn generate_token(&self) -> (r: Token)
        requires
            self.wf(),
        ensures
            minted_by(r@, self.id_view(), self.public_key()),
    {
        match Signed::new(&self.config.keypair, TokenHeader::new(self.config.id.clone())) {
            Ok(h) => Token::new(h),
            Err(_) => vstd::pervasive::unreached(),
        }
    }

    /// Passes the token on: to the first station that has not held it this round, or,
    /// when every station has, to the last one with a freshly minted token.
    fn pass_on_token(&mut self, now: u64) -> (r: Result<(), TokenRingError>)
        requires
            old(self).wf(),
        ensures
            final(self).wf(),
            pass_post(old(self), final(self), now, r),
    {
        proof {
            self.lemma_membership_matches_status();
            self.lemma_members_unique();
        }
        let ghost s = self.token_passer.status();
        let ghost k = first_unheld(s, 0, self.token_passer.skipped_holder(now));
        let ghost c = if k < s.len() { k } else { s.len() - 1 };
        proof {
            lemma_first_unheld_range(s, 0, self.token_passer.skipped_holder(now));
        }
        let next_station = match self.token_passer.select_next_station(now) {
            Some(n) => n,
            None => {
                return Err(TokenRingError::EmptyRing);
            },
        };
        proof {
            assert(member_ids(self.members()) =~= status_ids(self.token_passer.status())) by {
                if k == s.len() {
                    assert(status_ids(all_reset(s)) =~= status_ids(s));
                } else {
                    assert(self.token_passer.status() == s);
                }
            }
            old(self).lemma_membership_matches_status();
            assert(self.members()[c].0 == next_station@);
        }
        let addr = match self.get_station_addr(&next_station) {
            Some(a) => a,
            None => vstd::pervasive::unreached(),
        };
        let token = match self.token_passer.current_token() {
            Some(t) => t,
            None => self.generate_token(),
        };
        self.token_passer.pass_token(next_station, now);
        self.send_packet(addr, PacketType::TokenPass(token));
        proof {
            assert(queue_view(self.outbox()).drop_last() =~= queue_view(old(self).outbox()));
        }
        Ok(())
    }

    /// Passes the token on if the token passer is ready (see `TokenPasser::pass_ready`);
    /// otherwise reports that the token is still out and changes nothing.
    pub fn poll_token_pass(&mut self, now: u64) -> (r: Result<(), TokenRingError>)
        requires
            old(self).wf(),
        ensures
            final(self).wf(),
            old(self).passer().pass_ready_at(now) ==> pass_post(old(self), final(self), now, r),
            !old(self).passer().pass_ready_at(now) ==> (r matches Err(e) && e is TokenPending) && unchanged(old(self), final(self)),
    {
        if self.token_passer.pass_ready(now) {
            self.pass_on_token(now)
        } else {
            Err(TokenRingError::TokenPending)
        }
    }

    /// Membership and rotation tables have the same size at every observable instant.
    pub proof fn lemma_membership_matches_status(&self)
        requires
            self.wf(),
        ensures
            self.members().len() == self.passer().status().len(),
            forall|i: int| 0 <= i < self.members().len() ==> #[trigger] self.members()[i].0 == self.passer().status()[i].0,
    {
        assert(member_ids(self.members()).len() == self.members().len());
        assert(status_ids(self.token_passer.status()).len() == self.token_passer.status().len());
        assert forall|i: int| 0 <= i < self.members().len() implies #[trigger] self.members()[i].0 == self.passer().status()[i].0 by {
            self.lemma_ids_at(i);
        }
    }

    proof fn lemma_ids_at(&self, k: int)
        requires
            self.wf(),
            0 <= k < self.token_passer.status().len() || 0 <= k < self.members().len(),
        ensures
            self.members().len() == self.token_passer.status().len(),
            self.members()[k].0 == self.token_passer.status()[k].0,
    {
        assert(member_ids(self.members()).len() == self.members().len());
        assert(status_ids(self.token_passer.status()).len() == self.token_passer.status().len());
        assert(member_ids(self.members())[k] == self.members()[k].0);
        assert(status_ids(self.token_passer.status())[k] == self.token_passer.status()[k].0);
    }

    proof fn lemma_members_unique(&self)
        requires
            self.wf(),
        ensures
            ids_unique(self.members()),
    {
        let m = self.members();
        let s = self.token_passer.status();
        assert(member_ids(m).len() == m.len());
        assert(status_ids(s).len() == s.len());
        assert forall|i: int, j: int| 0 <= i < j < m.len() implies #[trigger] m[i].0 != #[trigger] m[j].0 by {
            assert(member_ids(m)[i] == status_ids(s)[i]);
            assert(member_ids(m)[j] == status_ids(s)[j]);
            assert(s[i].0 != s[j].0);
        }
    }
}

pub enum ModeView {
    Offline,
    Pending(SockAddr),
    Connected(Seq<char>, SockAddr),
}

/// A passive station's link to the monitor.
pub enum ConnectionMode {
    Offline,
    /// A join request went to this address; no answer yet.
    Pending(SockAddr),
    /// Admitted by the monitor with this id at this address.
    Connected(WorkStationId, SockAddr),
}

impl View for ConnectionMode {
    type V = ModeView;

    open spec fn view(&self) -> ModeView {
        match self {
            ConnectionMode::Offline => ModeView::Offline,
            ConnectionMode::Pending(a) => ModeView::Pending(*a),
            ConnectionMode::Connected(id, a) => ModeView::Connected(id@, *a),
        }
    }
}

/// Nothing observable of a passive station changed.
pub open spec fn passive_unchanged(a: &PassiveStation, b: &PassiveStation) -> bool {
    &&& b.mode() == a.mode()
    &&& b.cached() == a.cached()
    &&& b.token() == a.token()
    &&& b.outbox() == a.outbox()
    &&& b.id_view() == a.id_view()
    &&& b.public_key() == a.public_key()
}

/// A ring member: joins through the monitor, stages frames, and relays the token.
pub struct PassiveStation {
    config: Config,
    conn_mode: ConnectionMode,
    cached_frames: Vec<TokenFrame>,
    curr_token: Option<Token>,
    send_queue: Vec<QueuedPacket>,
}

impl PassiveStation {
    pub closed spec fn mode(&self) -> ModeView {
        self.conn_mode@
    }

    /// Frames staged for the next token, oldest first.
    pub closed spec fn cached(&self) -> Seq<FrameView> {
        views(self.cached_frames@)
    }

    /// The token held, if any.
    pub closed spec fn token(&self) -> Option<TokenView> {
        match self.curr_token {
            Some(t) => Some(t@),
            None => None,
        }
    }

    /// The packets waiting to be sent, oldest first.
    pub closed spec fn outbox(&self) -> Seq<QueuedPacket> {
        self.send_queue@
    }

    pub closed spec fn id_view(&self) -> Seq<char> {
        self.config.id@
    }

    pub closed spec fn public_key(&self) -> Seq<u8> {
        self.config.keypair.public_view()
    }

    /// Every outgoing packet is signed by this station.
    pub closed spec fn wf(&self) -> bool {
        &&& vstd::utf8::encode_utf8(self.config.id@).len() <= 8
        &&& signed_by(self.send_queue@, self.config.id@, self.config.keypair.public_view())
    }

    /// An offline station named `id`.
    pub fn new(id: WorkStationId) -> (r: PassiveStation)
        requires
            vstd::utf8::encode_utf8(id@).len() <= 8,
        ensures
            r.wf(),
            r.mode() == ModeView::Offline,
            r.cached().len() == 0,
            r.token() is None,
            r.outbox().len() == 0,
            r.id_view() == id@,
    {
        let r = PassiveStation {
            config: Config::new(id),
            conn_mode: ConnectionMode::Offline,
            cached_frames: Vec::new(),
            curr_token: None,
            send_queue: Vec::new(),
        };
        assert(r.cached() =~= Seq::<FrameView>::empty());
        r
    }

    /// This station's id.
    pub fn id(&self) -> (r: &WorkStationId)
        ensures
            r@ == self.id_view(),
    {
        &self.config.id
    }

    /// Clears the outbox and hands its packets over, oldest first.
    pub fn take_outbox(&mut self) -> (r: Vec<QueuedPacket>)
        requires
            old(self).wf(),
        ensures
            final(self).wf(),
            r@ == old(self).outbox(),
            final(self).outbox().len() == 0,
            final(self).mode() == old(self).mode(),
            final(self).cached() == old(self).cached(),
            final(self).token() == old(self).token(),
            final(self).id_view() == old(self).id_view(),
            signed_by(r@, old(self).id_view(), old(self).public_key()),
    {
        let mut out: Vec<QueuedPacket> = Vec::new();
        std::mem::swap(&mut out, &mut self.send_queue);
        out
    }

    /// Signs a header and queues `packet` for `addr`.
    fn send_packet_to(&mut self, addr: SockAddr, packet: PacketType)
        requires
            old(self).wf(),
        ensures
            final(self).wf(),
            queued_one(old(self).outbox(), final(self).outbox(), packet@, addr),
            final(self).outbox().len() == old(self).outbox().len() + 1,
            final(self).mode() == old(self).mode(),
            final(self).cached() == old(self).cached(),
            final(self).token() == old(self).token(),
            final(self).id_view() == old(self).id_view(),
            final(self).public_key() == old(self).public_key(),
    {
        let header = sign_header(&self.config.keypair, &self.config.id);
        let ghost q0 = self.send_queue@;
        self.send_queue.push(QueuedPacket(Packet::new(header, packet), addr));
        assert(queue_view(self.send_queue@) =~= queue_view(q0).push((packet@, addr)));
        assert(signed_by(self.send_queue@, self.config.id@, self.config.keypair.public_view())) by {
            assert forall|i: int| 0 <= i < self.send_queue@.len() implies {
                &&& (#[trigger] self.send_queue@[i]).0.header@.val == self.config.id@
                &&& self.send_queue@[i].0.header@.key == self.config.keypair.public_view()
                &&& signed_accepts(self.send_queue@[i].0.header@)
            } by {
                if i < q0.len() {
                    assert(self.send_queue@[i] == q0[i]);
                }
            }
        }
    }

    /// Queues `packet` for the monitor; only when connected.
    fn send_packet(&mut self, packet: PacketType) -> (r: Result<(), TokenRingError>)
        requires
            old(self).wf(),
        ensures
            final(self).wf(),
            final(self).mode() == old(self).mode(),
            final(self).cached() == old(self).cached(),
            final(self).token() == old(self).token(),
            final(self).id_view() == old(self).id_view(),
            final(self).public_key() == old(self).public_key(),
            match old(self).mode() {
                ModeView::Connected(_, a) => r is Ok && queued_one(old(self).outbox(), final(self).outbox(), packet@, a),
                _ => (r matches Err(e) && e is NotConnected) && final(self).outbox() == old(self).outbox(),
            },
    {
        match &self.conn_mode {
            ConnectionMode::Connected(_, addr) => {
                let a = *addr;
                self.send_packet_to(a, packet);
                Ok(())
            },
            _ => Err(TokenRingError::NotConnected),
        }
    }

    /// Asks the monitor at `addr` to be admitted with password `pw`.
    pub fn connect(&mut self, addr: SockAddr, pw: String) -> (r: Result<(), TokenRingError>)
        requires
            old(self).wf(),
        ensures
            final(self).wf(),
            r is Ok,
            final(self).mode() == ModeView::Pending(addr),
            queued_one(old(self).outbox(), final(self).outbox(), PacketTypeView::JoinRequest(pw@), addr),
            final(self).cached() == old(self).cached(),
            final(self).token() == old(self).token(),
            final(self).id_view() == old(self).id_view(),
    {
        self.send_packet_to(addr, PacketType::JoinRequest(pw));
        self.conn_mode = ConnectionMode::Pending(addr);
        Ok(())
    }

    /// Tells the monitor that this station leaves and goes offline; only when connected.
    pub fn shutdown(&mut self) -> (r: Result<(), TokenRingError>)
        requires
            old(self).wf(),
        ensures
            final(self).wf(),
            final(self).cached() == old(self).cached(),
            final(self).token() == old(self).token(),
            final(self).id_view() == old(self).id_view(),
            match old(self).mode() {
                ModeView::Connected(_, a) => r is Ok && final(self).mode() == ModeView::Offline
                    && queued_one(old(self).outbox(), final(self).outbox(), PacketTypeView::Leave, a),
                _ => (r matches Err(e) && e is NotConnected) && passive_unchanged(old(self), final(self)),
            },
    {
        self.send_packet(PacketType::Leave)?;
        self.conn_mode = ConnectionMode::Offline;
        Ok(())
    }

    /// Stages a frame from this station, stamped now, for the next token.
    pub fn append_frame(&mut self, frame: TokenFrameType)
        requires
            old(self).wf(),
        ensures
            final(self).wf(),
            final(self).cached().len() == old(self).cached().len() + 1,
            final(self).cached().drop_last() == old(self).cached(),
            final(self).cached().last().id.source == old(self).id_view(),
            final(self).cached().last().content == frame@,
            final(self).mode() == old(self).mode(),
            final(self).token() == old(self).token(),
            final(self).outbox() == old(self).outbox(),
            final(self).id_view() == old(self).id_view(),
    {
        let ghost c0 = self.cached_frames@;
        let f = TokenFrame::new(TokenFrameId::new(self.config.id.clone()), frame);
        self.cached_frames.push(f);
        assert(views(self.cached_frames@).drop_last() =~= views(c0));
    }

    /// Sends the held token back to the monitor. Without a token: nothing to do. The token
    /// leaves the slot either way; it is queued only when connected.
    pub fn pass_on_token(&mut self) -> (r: Result<(), TokenRingError>)
        requires
            old(self).wf(),
        ensures
            final(self).wf(),
            old(self).token() is None ==> (r matches Err(e) && e is TokenPending) && passive_unchanged(old(self), final(self)),
            old(self).token() matches Some(t) ==> {
                &&& final(self).token() is None
                &&& final(self).mode() == old(self).mode()
                &&& final(self).cached() == old(self).cached()
                &&& match old(self).mode() {
                    ModeView::Connected(_, a) => r is Ok && queued_one(old(self).outbox(), final(self).outbox(), PacketTypeView::TokenPass(t), a),
                    _ => (r matches Err(e) && e is NotConnected) && final(self).outbox() == old(self).outbox(),
                }
            },
    {
        match self.curr_token.take() {
            Some(t) => self.send_packet(PacketType::TokenPass(t)),
            None => Err(TokenRingError::TokenPending),
        }
    }

    /// Handles the monitor's answer to a join request: only while pending. A
    /// confirmation connects to the pending address under the monitor's id; a denial
    /// keeps the request pending and reports the reason.
    fn recv_join_reply(&mut self, result: JoinAnswerResult) -> (r: Result<(), TokenRingError>)
        requires
            old(self).wf(),
        ensures
            final(self).wf(),
            final(self).cached() == old(self).cached(),
            final(self).token() == old(self).token(),
            final(self).outbox() == old(self).outbox(),
            final(self).id_view() == old(self).id_view(),
            final(self).public_key() == old(self).public_key(),
            match old(self).mode() {
                ModeView::Offline => (r matches Err(e) && e is NotConnected) && final(self).mode() == old(self).mode(),
                ModeView::Connected(_, _) => (r matches Err(e) && e is AlreadyConnected) && final(self).mode() == old(self).mode(),
                ModeView::Pending(a) => match result@ {
                    JoinAnswerView::Confirm(id) => r is Ok && final(self).mode() == ModeView::Connected(id, a),
                    JoinAnswerView::Deny(reason) => (r matches Err(TokenRingError::FailedJoinAttempt(why)) && why@ == reason)
                        && final(self).mode() == old(self).mode(),
                },
            },
    {
        let addr = match &self.conn_mode {
            ConnectionMode::Offline => {
                return Err(TokenRingError::NotConnected);
            },
            ConnectionMode::Connected(_, _) => {
                return Err(TokenRingError::AlreadyConnected);
            },
            ConnectionMode::Pending(a) => *a,
        };
        match result {
            JoinAnswerResult::Confirm(id) => {
                self.conn_mode = ConnectionMode::Connected(id, addr);
                Ok(())
            },
            JoinAnswerResult::Deny(reason) => Err(TokenRingError::FailedJoinAttempt(reason)),
        }
    }

    /// Handles one received packet. When connected, only packets from the monitor's
    /// address and id count, and of those only a token pass does anything. Otherwise
    /// only a join reply counts.
    pub fn recv_next(&mut self, packet: QueuedPacket) -> (r: Result<(), TokenRingError>)
        requires
            old(self).wf(),
        ensures
            final(self).wf(),
            final(self).id_view() == old(self).id_view(),
            ({
                let src = packet.0.header@.val;
                let addr = packet.1;
                match old(self).mode() {
                    ModeView::Connected(eid, ea) => {
                        &&& addr != ea ==> (r matches Err(TokenRingError::InvalidSocketAddress(x)) && x == addr)
                            && passive_unchanged(old(self), final(self))
                        &&& addr == ea && src != eid ==> (r matches Err(TokenRingError::InvalidWorkStationId(got, want))
                            && got@ == src && want@ == eid) && passive_unchanged(old(self), final(self))
                        &&& addr == ea && src == eid ==> r is Ok && match packet.0.content {
                            PacketType::TokenPass(t) => {
                                &&& final(self).token() == Some(TokenView { header: t@.header, frames: t@.frames + old(self).cached() })
                                &&& final(self).cached().len() == 0
                                &&& final(self).mode() == old(self).mode()
                                &&& final(self).outbox() == old(self).outbox()
                            },
                            _ => passive_unchanged(old(self), final(self)),
                        }
                    },
                    ModeView::Pending(a) => match packet.0.content {
                        PacketType::JoinReply(JoinAnswerResult::Confirm(id)) => r is Ok
                            && final(self).mode() == ModeView::Connected(id@, a)
                            && final(self).cached() == old(self).cached() && final(self).token() == old(self).token()
                            && final(self).outbox() == old(self).outbox(),
                        PacketType::JoinReply(JoinAnswerResult::Deny(reason)) =>
                            (r matches Err(TokenRingError::FailedJoinAttempt(why)) && why@ == reason@)
                            && passive_unchanged(old(self), final(self)),
                        _ => (r matches Err(e) && e is NotConnected) && passive_unchanged(old(self), final(self)),
                    },
                    ModeView::Offline => (r matches Err(e) && e is NotConnected) && passive_unchanged(old(self), final(self)),
                }
            }),
    {
        let QueuedPacket(p, addr) = packet;
        let Packet { header, content } = p;
        match &self.conn_mode {
            ConnectionMode::Connected(target_id, target_addr) => {
                if !addr.same(target_addr) {
                    return Err(TokenRingError::InvalidSocketAddress(addr));
                }
                let source = header.into_value().source;
                if !(source == *target_id) {
                    return Err(TokenRingError::InvalidWorkStationId(source, target_id.clone()));
                }
                match content {
                    PacketType::TokenPass(token) => {
                        self.recv_token_pass(token);
                    },
                    _ => {},
                }
                Ok(())
            },
            _ => {
                match content {
                    PacketType::JoinReply(result) => self.recv_join_reply(result),
                    _ => Err(TokenRingError::NotConnected),
                }
            },
        }
    }

    /// The link to the monitor.
    pub fn connection_mode(&self) -> (r: &ConnectionMode)
        ensures
            r@ == self.mode(),
    {
        &self.conn_mode
    }

    /// The token held, if any.
    pub fn held_token(&self) -> (r: Option<&Token>)
        ensures
            r is Some <==> self.token() is Some,
            r matches Some(t) ==> self.token() == Some(t@),
    {
        self.curr_token.as_ref()
    }

    /// The number of frames staged for the next token.
    pub fn staged_frame_count(&self) -> (r: usize)
        ensures
            r == self.cached().len(),
    {
        self.cached_frames.len()
    }

    /// The held token, for changes in place.
    pub fn get_token_mut(&mut self) -> (r: Option<&mut Token>)
        ensures
            r is Some <==> old(self).token() is Some,
            r matches Some(t) ==> old(self).token() == Some(t@),
    {
        self.curr_token.as_mut()
    }

    /// Accepts a token: the staged frames are appended to it, in order, and it replaces
    /// any token held.
    fn recv_token_pass(&mut self, token: Token)
        ensures
            final(self).token() == Some(TokenView { header: token@.header, frames: token@.frames + old(self).cached() }),
            final(self).cached().len() == 0,
            final(self).mode() == old(self).mode(),
            final(self).outbox() == old(self).outbox(),
            final(self).id_view() == old(self).id_view(),
            final(self).public_key() == old(self).public_key(),
            final(self).config == old(self).config,
    {
        let mut token = token;
        let ghost f0 = token.frames@;
        let ghost c0 = self.cached_frames@;
        token.frames.append(&mut self.cached_frames);
        assert(views(token.frames@) =~= views(f0) + views(c0));
        assert(views(self.cached_frames@) =~= Seq::<FrameView>::empty());
        self.curr_token = Some(token);
    }
}

} // verus!
