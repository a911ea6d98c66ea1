use vstd::prelude::*;
use crate::err::TokenRingError;
use crate::id::WorkStationId;
use crate::serialize::{
    Serializable, starts_with_at, be16, be64, enc_byte_vec, byte_vec_fits, write_u8, read_u8,
    write_u16, read_u16, write_u64, read_u64, write_byte_vec, read_byte_vec,
    lemma_starts_with_concat, copy_bytes, views, enc_vec, vec_fits, write_vec, read_vec, vec_size,
};
use crate::signature::{Signed, SignedView};
use crate::util::timestamp;

verus! {

pub struct TokenHeaderView {
    pub origin: Seq<char>,
    pub timestamp: u64,
}

/// Who minted a token, and when (seconds since the Unix epoch).
#[derive(Debug, PartialEq)]
pub struct TokenHeader {
    pub origin: WorkStationId,
    pub timestamp: u64,
}

impl View for TokenHeader {
    type V = TokenHeaderView;

    open spec fn view(&self) -> TokenHeaderView {
        TokenHeaderView { origin: self.origin@, timestamp: self.timestamp }
    }
}

impl Clone for TokenHeader {
    fn clone(&self) -> (r: TokenHeader)
        ensures
            r@ == self@,
    {
        TokenHeader { origin: self.origin.clone(), timestamp: self.timestamp }
    }
}

impl TokenHeader {
    /// A header for a token minted now by `origin`.
    pub fn new(origin: WorkStationId) -> (r: TokenHeader)
        ensures
            r.origin@ == origin@,
    {
        TokenHeader { origin, timestamp: timestamp() }
    }
}

impl Serializable for TokenHeader {
    open spec fn wf_view(v: TokenHeaderView) -> bool {
        WorkStationId::wf_view(v.origin)
    }

    open spec fn encoding(v: TokenHeaderView) -> Seq<u8> {
        WorkStationId::encoding(v.origin) + be64(v.timestamp)
    }

    fn write(&self, buf: &mut Vec<u8>) -> (r: Result<(), TokenRingError>) {
        self.origin.write(buf)?;
        write_u64(buf, self.timestamp);
        assert(buf@ =~= old(buf)@ + Self::encoding(self@));
        Ok(())
    }

    fn read(buf: &[u8], pos: usize) -> (r: Result<(TokenHeader, usize), TokenRingError>) {
        proof {
            assert forall|m: TokenHeaderView| Self::wf_view(m) && #[trigger] starts_with_at(buf@, pos as int, Self::encoding(m))
                implies starts_with_at(buf@, pos as int, WorkStationId::encoding(m.origin))
                    && starts_with_at(buf@, pos + WorkStationId::encoding(m.origin).len(), be64(m.timestamp)) by {
                lemma_starts_with_concat(buf@, pos as int, WorkStationId::encoding(m.origin), be64(m.timestamp));
            }
        }
        let (origin, at1) = WorkStationId::read(buf, pos)?;
        let (ts, at2) = read_u64(buf, at1)?;
        let h = TokenHeader { origin, timestamp: ts };
        proof {
            lemma_starts_with_concat(buf@, pos as int, WorkStationId::encoding(h.origin@), be64(ts));
        }
        Ok((h, at2))
    }

    fn size(&self) -> (r: usize) {
        self.origin.size() + 8
    }
}

pub enum SendModeView {
    Unicast(Seq<char>),
    Broadcast,
}

/// To whom a data frame is addressed.
#[derive(Debug, PartialEq, Eq)]
pub enum TokenSendMode {
    Unicast(WorkStationId),
    Broadcast,
}

impl View for TokenSendMode {
    type V = SendModeView;

    open spec fn view(&self) -> SendModeView {
        match self {
            TokenSendMode::Unicast(d) => SendModeView::Unicast(d@),
            TokenSendMode::Broadcast => SendModeView::Broadcast,
        }
    }
}

impl Clone for TokenSendMode {
    fn clone(&self) -> (r: TokenSendMode)
        ensures
            r@ == self@,
    {
        match self {
            TokenSendMode::Unicast(d) => TokenSendMode::Unicast(d.clone()),
            TokenSendMode::Broadcast => TokenSendMode::Broadcast,
        }
    }
}

impl Serializable for TokenSendMode {
    open spec fn wf_view(v: SendModeView) -> bool {
        match v {
            SendModeView::Unicast(d) => WorkStationId::wf_view(d),
            SendModeView::Broadcast => true,
        }
    }

    open spec fn encoding(v: SendModeView) -> Seq<u8> {
        match v {
            SendModeView::Unicast(d) => seq![0u8] + WorkStationId::encoding(d),
            SendModeView::Broadcast => seq![1u8],
        }
    }

    fn write(&self, buf: &mut Vec<u8>) -> (r: Result<(), TokenRingError>) {
        match self {
            TokenSendMode::Unicast(d) => {
                write_u8(buf, 0);
                d.write(buf)?;
            },
            TokenSendMode::Broadcast => {
                write_u8(buf, 1);
            },
        }
        assert(buf@ =~= old(buf)@ + Self::encoding(self@));
        Ok(())
    }

    fn read(buf: &[u8], pos: usize) -> (r: Result<(TokenSendMode, usize), TokenRingError>) {
        proof {
            assert forall|m: SendModeView| Self::wf_view(m) && #[trigger] starts_with_at(buf@, pos as int, Self::encoding(m))
                implies pos < buf@.len() && buf@[pos as int] == Self::encoding(m)[0]
                    && (m matches SendModeView::Unicast(d) ==> starts_with_at(buf@, pos + 1, WorkStationId::encoding(d))) by {
                assert(buf@.subrange(pos as int, pos + Self::encoding(m).len())[0] == buf@[pos as int]);
                if let SendModeView::Unicast(d) = m {
                    lemma_starts_with_concat(buf@, pos as int, seq![0u8], WorkStationId::encoding(d));
                }
            }
        }
        let (tag, at1) = read_u8(buf, pos)?;
        assert(buf@[pos as int] == tag) by {
            assert(buf@.subrange(pos as int, pos + 1)[0] == buf@[pos as int]);
        }
        if tag == 0 {
            let (d, at2) = WorkStationId::read(buf, at1)?;
            let r = TokenSendMode::Unicast(d);
            proof {
                lemma_starts_with_concat(buf@, pos as int, seq![0u8], WorkStationId::encoding(d@));
            }
            Ok((r, at2))
        } else if tag == 1 {
            proof {
                assert(buf@.subrange(pos as int, pos + 1) =~= seq![1u8]);
            }
            Ok((TokenSendMode::Broadcast, at1))
        } else {
            Err(TokenRingError::InvalidPacketHeader)
        }
    }

    fn size(&self) -> (r: usize) {
        match self {
            TokenSendMode::Unicast(d) => 1 + d.size(),
            TokenSendMode::Broadcast => 1,
        }
    }
}

pub struct FrameIdView {
    pub source: Seq<char>,
    pub timestamp: u64,
}

/// Identifies a frame by the station that appended it and when.
#[derive(Debug, PartialEq, Eq)]
pub struct TokenFrameId {
    pub source: WorkStationId,
    pub timestamp: u64,
}

impl View for TokenFrameId {
    type V = FrameIdView;

    open spec fn view(&self) -> FrameIdView {
        FrameIdView { source: self.source@, timestamp: self.timestamp }
    }
}

impl Clone for TokenFrameId {
    fn clone(&self) -> (r: TokenFrameId)
        ensures
            r@ == self@,
    {
        TokenFrameId { source: self.source.clone(), timestamp: self.timestamp }
    }
}

impl TokenFrameId {
    /// An id for a frame appended now by `source`.
    pub fn new(source: WorkStationId) -> (r: TokenFrameId)
        ensures
            r.source@ == source@,
    {
        TokenFrameId { source, timestamp: timestamp() }
    }
}

impl Serializable for TokenFrameId {
    open spec fn wf_view(v: FrameIdView) -> bool {
        WorkStationId::wf_view(v.source)
    }

    open spec fn encoding(v: FrameIdView) -> Seq<u8> {
        WorkStationId::encoding(v.source) + be64(v.timestamp)
    }

    fn write(&self, buf: &mut Vec<u8>) -> (r: Result<(), TokenRingError>) {
        self.source.write(buf)?;
        write_u64(buf, self.timestamp);
        assert(buf@ =~= old(buf)@ + Self::encoding(self@));
        Ok(())
    }

    fn read(buf: &[u8], pos: usize) -> (r: Result<(TokenFrameId, usize), TokenRingError>) {
        proof {
            assert forall|m: FrameIdView| Self::wf_view(m) && #[trigger] starts_with_at(buf@, pos as int, Self::encoding(m))
                implies starts_with_at(buf@, pos as int, WorkStationId::encoding(m.source))
                    && starts_with_at(buf@, pos + WorkStationId::encoding(m.source).len(), be64(m.timestamp)) by {
                lemma_starts_with_concat(buf@, pos as int, WorkStationId::encoding(m.source), be64(m.timestamp));
            }
        }
        let (source, at1) = WorkStationId::read(buf, pos)?;
        let (ts, at2) = read_u64(buf, at1)?;
        let h = TokenFrameId { source, timestamp: ts };
        proof {
            lemma_starts_with_concat(buf@, pos as int, WorkStationId::encoding(h.source@), be64(ts));
        }
        Ok((h, at2))
    }

    fn size(&self) -> (r: usize) {
        self.source.size() + 8
    }
}

pub enum FrameTypeView {
    Empty,
    Data { send_mode: SendModeView, seq: u16, payload: Seq<u8> },
    DataReceived { source: Seq<char>, seq: u16 },
}

/// What a frame carries: nothing, data, or the acknowledgement of data.
#[derive(Debug, PartialEq, Eq)]
pub enum TokenFrameType {
    Empty,
    Data { send_mode: TokenSendMode, seq: u16, payload: Vec<u8> },
    DataReceived { source: WorkStationId, seq: u16 },
}

impl View for TokenFrameType {
    type V = FrameTypeView;

    open spec fn view(&self) -> FrameTypeView {
        match self {
            TokenFrameType::Empty => FrameTypeView::Empty,
            TokenFrameType::Data { send_mode, seq, payload } =>
                FrameTypeView::Data { send_mode: send_mode@, seq: *seq, payload: payload@ },
            TokenFrameType::DataReceived { source, seq } =>
                FrameTypeView::DataReceived { source: source@, seq: *seq },
        }
    }
}

impl Clone for TokenFrameType {
    fn clone(&self) -> (r: TokenFrameType)
        ensures
            r@ == self@,
    {
        match self {
            TokenFrameType::Empty => TokenFrameType::Empty,
            TokenFrameType::Data { send_mode, seq, payload } =>
                TokenFrameType::Data { send_mode: send_mode.clone(), seq: *seq, payload: copy_bytes(payload) },
            TokenFrameType::DataReceived { source, seq } =>
                TokenFrameType::DataReceived { source: source.clone(), seq: *seq },
        }
    }
}

impl Serializable for TokenFrameType {
    open spec fn wf_view(v: FrameTypeView) -> bool {
        match v {
            FrameTypeView::Empty => true,
            FrameTypeView::Data { send_mode, seq, payload } =>
                TokenSendMode::wf_view(send_mode) && byte_vec_fits(payload),
            FrameTypeView::DataReceived { source, seq } => WorkStationId::wf_view(source),
        }
    }

    open spec fn encoding(v: FrameTypeView) -> Seq<u8> {
        match v {
            FrameTypeView::Empty => seq![0u8],
            FrameTypeView::Data { send_mode, seq, payload } =>
                seq![1u8] + TokenSendMode::encoding(send_mode) + be16(seq) + enc_byte_vec(payload),
            FrameTypeView::DataReceived { source, seq } =>
                seq![2u8] + WorkStationId::encoding(source) + be16(seq),
        }
    }

    fn write(&self, buf: &mut Vec<u8>) -> (r: Result<(), TokenRingError>) {
        match self {
            TokenFrameType::Empty => {
                write_u8(buf, 0);
            },
            TokenFrameType::Data { send_mode, seq, payload } => {
                write_u8(buf, 1);
                send_mode.write(buf)?;
                write_u16(buf, *seq);
                write_byte_vec(buf, payload.as_slice())?;
            },
            TokenFrameType::DataReceived { source, seq } => {
                write_u8(buf, 2);
                source.write(buf)?;
                write_u16(buf, *seq);
            },
        }
        assert(buf@ =~= old(buf)@ + Self::encoding(self@));
        Ok(())
    }

    fn read(buf: &[u8], pos: usize) -> (r: Result<(TokenFrameType, usize), TokenRingError>) {
        let ghost b = buf@;
        proof {
            assert forall|m: FrameTypeView| Self::wf_view(m) && #[trigger] starts_with_at(b, pos as int, Self::encoding(m))
                implies pos < b.len() && b[pos as int] == Self::encoding(m)[0] by {
                assert(b.subrange(pos as int, pos + Self::encoding(m).len())[0] == b[pos as int]);
            }
        }
        let (tag, at1) = read_u8(buf, pos)?;
        assert(b[pos as int] == tag) by {
            assert(b.subrange(pos as int, pos + 1)[0] == b[pos as int]);
        }
        if tag == 0 {
            proof {
                assert(b.subrange(pos as int, pos + 1) =~= seq![0u8]);
            }
            Ok((TokenFrameType::Empty, at1))
        } else if tag == 1 {
            proof {
                assert forall|m: FrameTypeView| Self::wf_view(m) && #[trigger] starts_with_at(b, pos as int, Self::encoding(m))
                    implies (m matches FrameTypeView::Data { send_mode, seq, payload }
                        && starts_with_at(b, at1 as int, TokenSendMode::encoding(send_mode))
                        && starts_with_at(b, at1 + TokenSendMode::encoding(send_mode).len(), be16(seq))
                        && starts_with_at(b, at1 + TokenSendMode::encoding(send_mode).len() + 2, enc_byte_vec(payload))) by {
                    if let FrameTypeView::Data { send_mode, seq, payload } = m {
                        let e1 = TokenSendMode::encoding(send_mode);
                        lemma_starts_with_concat(b, pos as int, seq![1u8] + e1 + be16(seq), enc_byte_vec(payload));
                        lemma_starts_with_concat(b, pos as int, seq![1u8] + e1, be16(seq));
                        lemma_starts_with_concat(b, pos as int, seq![1u8], e1);
                    }
                }
            }
            let (send_mode, at2) = TokenSendMode::read(buf, at1)?;
            let (sq, at3) = read_u16(buf, at2)?;
            let (payload, at4) = read_byte_vec(buf, at3)?;
            let r = TokenFrameType::Data { send_mode, seq: sq, payload };
            proof {
                let e1 = TokenSendMode::encoding(send_mode@);
                lemma_starts_with_concat(b, pos as int, seq![1u8], e1);
                lemma_starts_with_concat(b, pos as int, seq![1u8] + e1, be16(sq));
                lemma_starts_with_concat(b, pos as int, seq![1u8] + e1 + be16(sq), enc_byte_vec(payload@));
                assert(b.subrange(pos as int, pos + 1) =~= seq![1u8]);
            }
            Ok((r, at4))
        } else if tag == 2 {
            proof {
                assert forall|m: FrameTypeView| Self::wf_view(m) && #[trigger] starts_with_at(b, pos as int, Self::encoding(m))
                    implies (m matches FrameTypeView::DataReceived { source, seq }
                        && starts_with_at(b, at1 as int, WorkStationId::encoding(source))
                        && starts_with_at(b, at1 + WorkStationId::encoding(source).len(), be16(seq))) by {
                    if let FrameTypeView::DataReceived { source, seq } = m {
                        let e1 = WorkStationId::encoding(source);
                        lemma_starts_with_concat(b, pos as int, seq![2u8] + e1, be16(seq));
                        lemma_starts_with_concat(b, pos as int, seq![2u8], e1);
                    }
                }
            }
            let (source, at2) = WorkStationId::read(buf, at1)?;
            let (sq, at3) = read_u16(buf, at2)?;
            let r = TokenFrameType::DataReceived { source, seq: sq };
            proof {
                let e1 = WorkStationId::encoding(source@);
                lemma_starts_with_concat(b, pos as int, seq![2u8], e1);
                lemma_starts_with_concat(b, pos as int, seq![2u8] + e1, be16(sq));
                assert(b.subrange(pos as int, pos + 1) =~= seq![2u8]);
            }
            Ok((r, at3))
        } else {
            Err(TokenRingError::InvalidPacketHeader)
        }
    }

    fn size(&self) -> (r: usize) {
        match self {
            TokenFrameType::Empty => 1,
            TokenFrameType::Data { send_mode, seq, payload } => 1 + send_mode.size() + 2 + 2 + payload.len(),
            TokenFrameType::DataReceived { source, seq } => 1 + source.size() + 2,
        }
    }
}

pub struct FrameView {
    pub id: FrameIdView,
    pub content: FrameTypeView,
}

/// One unit of payload riding with the token.
#[derive(Debug, PartialEq, Eq)]
pub struct TokenFrame {
    pub id: TokenFrameId,
    pub content: TokenFrameType,
}

impl View for TokenFrame {
    type V = FrameView;

    open spec fn view(&self) -> FrameView {
        FrameView { id: self.id@, content: self.content@ }
    }
}

impl Clone for TokenFrame {
    fn clone(&self) -> (r: TokenFrame)
        ensures
            r@ == self@,
    {
        TokenFrame { id: self.id.clone(), content: self.content.clone() }
    }
}

impl TokenFrame {
    pub fn new(id: TokenFrameId, content: TokenFrameType) -> (r: TokenFrame)
        ensures
            r.id == id,
            r.content == content,
    {
        TokenFrame { id, content }
    }
}

impl Serializable for TokenFrame {
    open spec fn wf_view(v: FrameView) -> bool {
        TokenFrameId::wf_view(v.id) && TokenFrameType::wf_view(v.content)
    }

    open spec fn encoding(v: FrameView) -> Seq<u8> {
        TokenFrameId::encoding(v.id) + TokenFrameType::encoding(v.content)
    }

    fn write(&self, buf: &mut Vec<u8>) -> (r: Result<(), TokenRingError>) {
        self.id.write(buf)?;
        self.content.write(buf)?;
        assert(buf@ =~= old(buf)@ + Self::encoding(self@));
        Ok(())
    }

    fn read(buf: &[u8], pos: usize) -> (r: Result<(TokenFrame, usize), TokenRingError>) {
        proof {
            assert forall|m: FrameView| Self::wf_view(m) && #[trigger] starts_with_at(buf@, pos as int, Self::encoding(m))
                implies starts_with_at(buf@, pos as int, TokenFrameId::encoding(m.id))
                    && starts_with_at(buf@, pos + TokenFrameId::encoding(m.id).len(), TokenFrameType::encoding(m.content)) by {
                lemma_starts_with_concat(buf@, pos as int, TokenFrameId::encoding(m.id), TokenFrameType::encoding(m.content));
            }
        }
        let (id, at1) = TokenFrameId::read(buf, pos)?;
        let (content, at2) = TokenFrameType::read(buf, at1)?;
        let f = TokenFrame { id, content };
        proof {
            lemma_starts_with_concat(buf@, pos as int, TokenFrameId::encoding(f.id@), TokenFrameType::encoding(f.content@));
        }
        Ok((f, at2))
    }

    fn size(&self) -> (r: usize) {
        self.id.size() + self.content.size()
    }
}

pub struct TokenView {
    pub header: SignedView<TokenHeaderView>,
    pub frames: Seq<FrameView>,
}

/// The signed token and the frames that holders appended to it.
#[derive(Debug, PartialEq)]
pub struct Token {
    pub header: Signed<TokenHeader>,
    pub frames: Vec<TokenFrame>,
}

impl View for Token {
    type V = TokenView;

    open spec fn view(&self) -> TokenView {
        TokenView { header: self.header@, frames: views(self.frames@) }
    }
}

/// Copies a list of frames.
pub fn clone_frames(v: &Vec<TokenFrame>) -> (r: Vec<TokenFrame>)
    ensures
        views(r@) == views(v@),
{
    let mut r: Vec<TokenFrame> = Vec::new();
    let mut i: usize = 0;
    while i < v.len()
        invariant
            i <= v@.len(),
            views(r@) =~= views(v@.subrange(0, i as int)),
        decreases v@.len() - i,
    {
        let c = v[i].clone();
        assert(c@ == v@[i as int]@);
        let ghost old_r = r@;
        r.push(c);
        assert(v@.subrange(0, i + 1) =~= v@.subrange(0, i as int).push(v@[i as int]));
        assert(views(r@) =~= views(old_r).push(c@));
        assert(views(v@.subrange(0, i + 1)) =~= views(v@.subrange(0, i as int)).push(v@[i as int]@));
        i = i + 1;
    }
    assert(v@.subrange(0, i as int) =~= v@);
    r
}

impl Clone for Token {
    fn clone(&self) -> (r: Token)
        ensures
            r@ == self@,
    {
        Token { header: self.header.clone(), frames: clone_frames(&self.frames) }
    }
}

impl Token {
    /// A token with no frames.
    pub fn new(header: Signed<TokenHeader>) -> (r: Token)
        ensures
            r.header == header,
            r.frames@.len() == 0,
    {
        Token { header, frames: Vec::new() }
    }
}

impl Serializable for Token {
    open spec fn wf_view(v: TokenView) -> bool {
        Signed::<TokenHeader>::wf_view(v.header) && vec_fits::<TokenFrame>(v.frames)
    }

    open spec fn encoding(v: TokenView) -> Seq<u8> {
        Signed::<TokenHeader>::encoding(v.header) + enc_vec::<TokenFrame>(v.frames)
    }

    fn write(&self, buf: &mut Vec<u8>) -> (r: Result<(), TokenRingError>) {
        self.header.write(buf)?;
        write_vec(buf, &self.frames)?;
        assert(buf@ =~= old(buf)@ + Self::encoding(self@));
        Ok(())
    }

    fn read(buf: &[u8], pos: usize) -> (r: Result<(Token, usize), TokenRingError>) {
        proof {
            assert forall|m: TokenView| Self::wf_view(m) && #[trigger] starts_with_at(buf@, pos as int, Self::encoding(m))
                implies starts_with_at(buf@, pos as int, Signed::<TokenHeader>::encoding(m.header))
                    && starts_with_at(buf@, pos + Signed::<TokenHeader>::encoding(m.header).len(), enc_vec::<TokenFrame>(m.frames)) by {
                lemma_starts_with_concat(buf@, pos as int, Signed::<TokenHeader>::encoding(m.header), enc_vec::<TokenFrame>(m.frames));
            }
        }
        let (header, at1) = Signed::<TokenHeader>::read(buf, pos)?;
        let (frames, at2) = read_vec::<TokenFrame>(buf, at1)?;
        let t = Token { header, frames };
        proof {
            lemma_starts_with_concat(buf@, pos as int, Signed::<TokenHeader>::encoding(t.header@), enc_vec::<TokenFrame>(t@.frames));
        }
        Ok((t, at2))
    }

    fn size(&self) -> (r: usize) {
        self.header.size() + vec_size(&self.frames)
    }
}

} // verus!
