use vstd::prelude::*;
use crate::err::TokenRingError;
use crate::addr::SockAddr;
use crate::id::WorkStationId;
use crate::serialize::{
    Serializable, starts_with_at, enc_string, string_fits, write_u8, read_u8, write_string,
    read_string, lemma_starts_with_concat,
};
use crate::signature::{Signed, SignedView};
use crate::token::{Token, TokenView};

verus! {

/// The sender of a packet; always travels signed.
#[derive(Debug, PartialEq)]
pub struct PacketHeader {
    pub source: WorkStationId,
}

impl View for PacketHeader {
    type V = Seq<char>;

    open spec fn view(&self) -> Seq<char> {
        self.source@
    }
}

impl Clone for PacketHeader {
    fn clone(&self) -> (r: PacketHeader)
        ensures
            r@ == self@,
    {
        PacketHeader { source: self.source.clone() }
    }
}

impl PacketHeader {
    pub fn new(source: WorkStationId) -> (r: PacketHeader)
        ensures
            r.source == source,
    {
        PacketHeader { source }
    }
}

impl Serializable for PacketHeader {
    open spec fn wf_view(v: Seq<char>) -> bool {
        WorkStationId::wf_view(v)
    }

    open spec fn encoding(v: Seq<char>) -> Seq<u8> {
        WorkStationId::encoding(v)
    }

    fn write(&self, buf: &mut Vec<u8>) -> (r: Result<(), TokenRingError>) {
        self.source.write(buf)
    }

    fn read(buf: &[u8], pos: usize) -> (r: Result<(PacketHeader, usize), TokenRingError>) {
        let (source, p) = WorkStationId::read(buf, pos)?;
        Ok((PacketHeader { source }, p))
    }

    fn size(&self) -> (r: usize) {
        self.source.size()
    }
}

pub enum JoinAnswerView {
    Confirm(Seq<char>),
    Deny(Seq<char>),
}

/// The monitor's answer to a join request.
#[derive(Debug, PartialEq)]
pub enum JoinAnswerResult {
    Confirm(WorkStationId),
    Deny(String),
}

impl View for JoinAnswerResult {
    type V = JoinAnswerView;

    open spec fn view(&self) -> JoinAnswerView {
        match self {
            JoinAnswerResult::Confirm(id) => JoinAnswerView::Confirm(id@),
            JoinAnswerResult::Deny(reason) => JoinAnswerView::Deny(reason@),
        }
    }
}

impl Serializable for JoinAnswerResult {
    open spec fn wf_view(v: JoinAnswerView) -> bool {
        match v {
            JoinAnswerView::Confirm(id) => WorkStationId::wf_view(id),
            JoinAnswerView::Deny(reason) => string_fits(reason),
        }
    }

    open spec fn encoding(v: JoinAnswerView) -> Seq<u8> {
        match v {
            JoinAnswerView::Confirm(id) => seq![0u8] + WorkStationId::encoding(id),
            JoinAnswerView::Deny(reason) => seq![1u8] + enc_string(reason),
        }
    }

    fn write(&self, buf: &mut Vec<u8>) -> (r: Result<(), TokenRingError>) {
        match self {
            JoinAnswerResult::Confirm(id) => {
                write_u8(buf, 0);
                id.write(buf)?;
            },
            JoinAnswerResult::Deny(reason) => {
                write_u8(buf, 1);
                write_string(buf, reason)?;
            },
        }
        assert(buf@ =~= old(buf)@ + Self::encoding(self@));
        Ok(())
    }

    fn read(buf: &[u8], pos: usize) -> (r: Result<(JoinAnswerResult, usize), TokenRingError>) {
        let ghost b = buf@;
        proof {
            assert forall|m: JoinAnswerView| Self::wf_view(m) && #[trigger] starts_with_at(b, pos as int, Self::encoding(m))
                implies pos < b.len() && b[pos as int] == Self::encoding(m)[0] && match m {
                    JoinAnswerView::Confirm(id) => starts_with_at(b, pos + 1, WorkStationId::encoding(id)),
                    JoinAnswerView::Deny(reason) => starts_with_at(b, pos + 1, enc_string(reason)),
                } by {
                assert(b.subrange(pos as int, pos + Self::encoding(m).len())[0] == b[pos as int]);
                match m {
                    JoinAnswerView::Confirm(id) => {
                        lemma_starts_with_concat(b, pos as int, seq![0u8], WorkStationId::encoding(id));
                    },
                    JoinAnswerView::Deny(reason) => {
                        lemma_starts_with_concat(b, pos as int, seq![1u8], enc_string(reason));
                    },
                }
            }
        }
        let (tag, at1) = read_u8(buf, pos)?;
        assert(b[pos as int] == tag) by {
            assert(b.subrange(pos as int, pos + 1)[0] == b[pos as int]);
        }
        if tag == 0 {
            let (id, at2) = WorkStationId::read(buf, at1)?;
            proof {
                assert(b.subrange(pos as int, pos + 1) =~= seq![0u8]);
                lemma_starts_with_concat(b, pos as int, seq![0u8], WorkStationId::encoding(id@));
            }
            Ok((JoinAnswerResult::Confirm(id), at2))
        } else if tag == 1 {
            let (reason, at2) = read_string(buf, at1)?;
            proof {
                assert(b.subrange(pos as int, pos + 1) =~= seq![1u8]);
                lemma_starts_with_concat(b, pos as int, seq![1u8], enc_string(reason@));
            }
            Ok((JoinAnswerResult::Deny(reason), at2))
        } else {
            Err(TokenRingError::InvalidPacketHeader)
        }
    }

    fn size(&self) -> (r: usize) {
        match self {
            JoinAnswerResult::Confirm(id) => 1 + id.size(),
            JoinAnswerResult::Deny(reason) => 1 + 2 + reason.as_str().as_bytes().len(),
        }
    }
}

pub enum PacketTypeView {
    JoinRequest(Seq<char>),
    JoinReply(JoinAnswerView),
    TokenPass(TokenView),
    Leave,
}

/// The four messages of the protocol.
#[derive(Debug, PartialEq)]
pub enum PacketType {
    JoinRequest(String),
    JoinReply(JoinAnswerResult),
    TokenPass(Token),
    Leave,
}

impl View for PacketType {
    type V = PacketTypeView;

    open spec fn view(&self) -> PacketTypeView {
        match self {
            PacketType::JoinRequest(pw) => PacketTypeView::JoinRequest(pw@),
            PacketType::JoinReply(a) => PacketTypeView::JoinReply(a@),
            PacketType::TokenPass(t) => PacketTypeView::TokenPass(t@),
            PacketType::Leave => PacketTypeView::Leave,
        }
    }
}

impl Serializable for PacketType {
    open spec fn wf_view(v: PacketTypeView) -> bool {
        match v {
            PacketTypeView::JoinRequest(pw) => string_fits(pw),
            PacketTypeView::JoinReply(a) => JoinAnswerResult::wf_view(a),
            PacketTypeView::TokenPass(t) => Token::wf_view(t),
            PacketTypeView::Leave => true,
        }
    }

    open spec fn encoding(v: PacketTypeView) -> Seq<u8> {
        match v {
            PacketTypeView::JoinRequest(pw) => seq![0u8] + enc_string(pw),
            PacketTypeView::JoinReply(a) => seq![1u8] + JoinAnswerResult::encoding(a),
            PacketTypeView::TokenPass(t) => seq![2u8] + Token::encoding(t),
            PacketTypeView::Leave => seq![3u8],
        }
    }

    fn write(&self, buf: &mut Vec<u8>) -> (r: Result<(), TokenRingError>) {
        match self {
            PacketType::JoinRequest(pw) => {
                write_u8(buf, 0);
                write_string(buf, pw)?;
            },
            PacketType::JoinReply(a) => {
                write_u8(buf, 1);
                a.write(buf)?;
            },
            PacketType::TokenPass(t) => {
                write_u8(buf, 2);
                t.write(buf)?;
            },
            PacketType::Leave => {
                write_u8(buf, 3);
            },
        }
        assert(buf@ =~= old(buf)@ + Self::encoding(self@));
        Ok(())
    }

    fn read(buf: &[u8], pos: usize) -> (r: Result<(PacketType, usize), TokenRingError>) {
        let ghost b = buf@;
        proof {
            assert forall|m: PacketTypeView| Self::wf_view(m) && #[trigger] starts_with_at(b, pos as int, Self::encoding(m))
                implies pos < b.len() && b[pos as int] == Self::encoding(m)[0] && match m {
                    PacketTypeView::JoinRequest(pw) => starts_with_at(b, pos + 1, enc_string(pw)),
                    PacketTypeView::JoinReply(a) => starts_with_at(b, pos + 1, JoinAnswerResult::encoding(a)),
                    PacketTypeView::TokenPass(t) => starts_with_at(b, pos + 1, Token::encoding(t)),
                    PacketTypeView::Leave => true,
                } by {
                assert(b.subrange(pos as int, pos + Self::encoding(m).len())[0] == b[pos as int]);
                match m {
                    PacketTypeView::JoinRequest(pw) => {
                        lemma_starts_with_concat(b, pos as int, seq![0u8], enc_string(pw));
                    },
                    PacketTypeView::JoinReply(a) => {
                        lemma_starts_with_concat(b, pos as int, seq![1u8], JoinAnswerResult::encoding(a));
                    },
                    PacketTypeView::TokenPass(t) => {
                        lemma_starts_with_concat(b, pos as int, seq![2u8], Token::encoding(t));
                    },
                    PacketTypeView::Leave => {},
                }
            }
        }
        let (tag, at1) = read_u8(buf, pos)?;
        assert(b[pos as int] == tag) by {
            assert(b.subrange(pos as int, pos + 1)[0] == b[pos as int]);
        }
        if tag == 0 {
            let (pw, at2) = read_string(buf, at1)?;
            proof {
                assert(b.subrange(pos as int, pos + 1) =~= seq![0u8]);
                lemma_starts_with_concat(b, pos as int, seq![0u8], enc_string(pw@));
            }
            Ok((PacketType::JoinRequest(pw), at2))
        } else if tag == 1 {
            let (a, at2) = JoinAnswerResult::read(buf, at1)?;
            proof {
                assert(b.subrange(pos as int, pos + 1) =~= seq![1u8]);
                lemma_starts_with_concat(b, pos as int, seq![1u8], JoinAnswerResult::encoding(a@));
            }
            Ok((PacketType::JoinReply(a), at2))
        } else if tag == 2 {
            let (t, at2) = Token::read(buf, at1)?;
            proof {
                assert(b.subrange(pos as int, pos + 1) =~= seq![2u8]);
                lemma_starts_with_concat(b, pos as int, seq![2u8], Token::encoding(t@));
            }
            Ok((PacketType::TokenPass(t), at2))
        } else if tag == 3 {
            proof {
                assert(b.subrange(pos as int, pos + 1) =~= seq![3u8]);
            }
            Ok((PacketType::Leave, at1))
        } else {
            Err(TokenRingError::InvalidPacketHeader)
        }
    }

    fn size(&self) -> (r: usize) {
        match self {
            PacketType::JoinRequest(pw) => 1 + 2 + pw.as_str().as_bytes().len(),
            PacketType::JoinReply(a) => 1 + a.size(),
            PacketType::TokenPass(t) => 1 + t.size(),
            PacketType::Leave => 1,
        }
    }
}

pub struct PacketView {
    pub header: SignedView<Seq<char>>,
    pub content: PacketTypeView,
}

/// A signed header and a message.
#[derive(Debug, PartialEq)]
pub struct Packet {
    pub header: Signed<PacketHeader>,
    pub content: PacketType,
}

impl View for Packet {
    type V = PacketView;

    open spec fn view(&self) -> PacketView {
        PacketView { header: self.header@, content: self.content@ }
    }
}

impl Packet {
    pub fn new(header: Signed<PacketHeader>, content: PacketType) -> (r: Packet)
        ensures
            r.header == header,
            r.content == content,
    {
        Packet { header, content }
    }

    /// The packet's bytes; fails exactly when some length does not fit its prefix.
    pub fn serialize(&self) -> (r: Result<Vec<u8>, TokenRingError>)
        ensures
            r is Ok <==> Self::wf_view(self@),
            r matches Ok(b) ==> b@ == Self::encoding(self@),
            r matches Err(e) ==> e is InvalidPacketHeader,
    {
        let mut buf: Vec<u8> = Vec::new();
        self.write(&mut buf)?;
        assert(buf@ =~= Self::encoding(self@));
        Ok(buf)
    }

    /// Parses a packet from the start of `buf`; succeeds exactly when `buf` starts
    /// with the encoding of a packet, which is then the one returned.
    pub fn deserialize(buf: &[u8]) -> (r: Result<Packet, TokenRingError>)
        ensures
            r matches Ok(p) ==> Self::wf_view(p@) && starts_with_at(buf@, 0, Self::encoding(p@)),
            r matches Err(e) ==> e is InvalidPacketHeader,
            forall|m: PacketView| Self::wf_view(m) && #[trigger] starts_with_at(buf@, 0, Self::encoding(m))
                ==> (r matches Ok(p) && p@ == m),
    {
        let (p, _) = Self::read(buf, 0)?;
        Ok(p)
    }
}

impl Serializable for Packet {
    open spec fn wf_view(v: PacketView) -> bool {
        Signed::<PacketHeader>::wf_view(v.header) && PacketType::wf_view(v.content)
    }

    open spec fn encoding(v: PacketView) -> Seq<u8> {
        Signed::<PacketHeader>::encoding(v.header) + PacketType::encoding(v.content)
    }

    fn write(&self, buf: &mut Vec<u8>) -> (r: Result<(), TokenRingError>) {
        self.header.write(buf)?;
        self.content.write(buf)?;
        assert(buf@ =~= old(buf)@ + Self::encoding(self@));
        Ok(())
    }

    fn read(buf: &[u8], pos: usize) -> (r: Result<(Packet, usize), TokenRingError>) {
        proof {
            assert forall|m: PacketView| Self::wf_view(m) && #[trigger] starts_with_at(buf@, pos as int, Self::encoding(m))
                implies starts_with_at(buf@, pos as int, Signed::<PacketHeader>::encoding(m.header))
                    && starts_with_at(buf@, pos + Signed::<PacketHeader>::encoding(m.header).len(), PacketType::encoding(m.content)) by {
                lemma_starts_with_concat(buf@, pos as int, Signed::<PacketHeader>::encoding(m.header), PacketType::encoding(m.content));
            }
        }
        let (header, at1) = Signed::<PacketHeader>::read(buf, pos)?;
        let (content, at2) = PacketType::read(buf, at1)?;
        let pk = Packet { header, content };
        proof {
            lemma_starts_with_concat(buf@, pos as int, Signed::<PacketHeader>::encoding(pk.header@), PacketType::encoding(pk.content@));
        }
        Ok((pk, at2))
    }

    fn size(&self) -> (r: usize) {
        self.header.size() + self.content.size()
    }
}

/// A packet and the endpoint it came from or goes to.
#[derive(Debug)]
pub struct QueuedPacket(pub Packet, pub SockAddr);

/// Each queued packet's message and endpoint.
pub open spec fn queue_view(q: Seq<QueuedPacket>) -> Seq<(PacketTypeView, SockAddr)> {
    q.map_values(|e: QueuedPacket| (e.0.content@, e.1))
}

} // verus!
