use vstd::prelude::*;
use crate::addr::SockAddr;
use crate::err::TokenRingError;
use crate::packet::{JoinAnswerView, PacketTypeView, queue_view};
use crate::pass::{TokenPasser, TokenPassMode, elapsed, first_unheld, has_id, lemma_first_unheld_range};
use crate::serialize::{Serializable, starts_with_at};
use crate::station::{ActiveStation, join_post};

verus! {

/// Round trip: the bytes that `write` appends for a value with an encoding are, wherever
/// they stand in a buffer, bytes at which `read` finds exactly that value (its contract
/// then returns it and the position right after them).
pub proof fn lemma_round_trip<T: Serializable>(v: T::V, before: Seq<u8>, after: Seq<u8>)
    requires
        T::wf_view(v),
    ensures
        starts_with_at(before + T::encoding(v) + after, before.len() as int, T::encoding(v)),
{
    let b = before + T::encoding(v) + after;
    assert(b.subrange(before.len() as int, (before.len() + T::encoding(v).len()) as int) =~= T::encoding(v));
}

/// A join request with the wrong password queues exactly one `Deny` reply, to the
/// requester, and changes neither the membership table nor the rotation table.
pub proof fn lemma_wrong_password_denied(
    a: &ActiveStation,
    b: &ActiveStation,
    id: Seq<char>,
    addr: SockAddr,
    pw: Seq<char>,
    r: Result<(), TokenRingError>,
)
    requires
        join_post(a, b, id, addr, pw, r),
        pw != a.policy().0,
    ensures
        r is Err,
        b.members() == a.members(),
        b.passer() == a.passer(),
        b.outbox().len() == a.outbox().len() + 1,
        queue_view(b.outbox()).drop_last() == queue_view(a.outbox()),
        queue_view(b.outbox()).last() matches (PacketTypeView::JoinReply(JoinAnswerView::Deny(_)), to) && to == addr,
{
}

/// A successful join of a new id adds exactly one member and exactly one rotation entry,
/// marked as not having held the token this round.
pub proof fn lemma_join_adds_one(
    a: &ActiveStation,
    b: &ActiveStation,
    id: Seq<char>,
    addr: SockAddr,
    pw: Seq<char>,
    r: Result<(), TokenRingError>,
)
    requires
        a.wf(),
        b.wf(),
        join_post(a, b, id, addr, pw, r),
        r is Ok,
        !has_id(a.members(), id),
    ensures
        b.members().len() == a.members().len() + 1,
        b.members().last() == (id, addr),
        b.passer().status().len() == a.passer().status().len() + 1,
        b.passer().status() == a.passer().status().push((id, false)),
{
    if has_id(a.members(), id) {
    }
    assert(!crate::station::join_refused(a, id, addr, pw)) by {
        if crate::station::join_refused(a, id, addr, pw) {
            assert(r is Err);
        }
    }
}

/// Timeout: once the holder has kept the token longer than allowed without returning
/// it, the passer is ready to pass, and the station that the next selection picks
/// before the round ends is not that holder; the holder is not marked as having held.
pub proof fn lemma_timeout_passes_over_holder(p: &TokenPasser, now: u64)
    requires
        p.in_flight() is Some,
        p.mode() != TokenPassMode::Received,
        elapsed(now, p.in_flight()->Some_0.1) > p.max_passover(),
    ensures
        p.pass_ready_at(now),
        p.skipped_holder(now) == Some(p.in_flight()->Some_0.0),
        ({
            let s = p.status();
            let k = first_unheld(s, 0, p.skipped_holder(now));
            k < s.len() ==> s[k].0 != p.in_flight()->Some_0.0 && !s[k].1
        }),
{
    lemma_first_unheld_range(p.status(), 0, p.skipped_holder(now));
}

} // verus!
