//! Wire-visible request/response schema of the directory protocol, and the
//! byte encoding the node uses for reassembled messages.
//!
//! A request or response travels as one byte payload (later fragmented by the
//! routing layer). The first byte is a tag; what follows depends on the tag.

use vstd::prelude::*;

verus! {

/// The content kind a directory node serves; configured at construction.
#[derive(Clone, Copy, Debug, PartialEq, Eq, Structural)]
pub enum ServerKind {
    Text,
    Media,
}

/// A request arriving from a remote client, after reassembly.
#[derive(Debug, PartialEq, Eq)]
pub enum WebRequest {
    ServerTypeQuery,
    TextListQuery,
    ItemQuery { id: Vec<u8> },
    MediaQuery { id: Vec<u8> },
}

/// Spec-level image of a request: identifier text as a byte sequence.
pub enum ReqModel {
    ServerTypeQuery,
    TextListQuery,
    ItemQuery { id: Seq<u8> },
    MediaQuery { id: Seq<u8> },
}

impl View for WebRequest {
    type V = ReqModel;

    open spec fn view(&self) -> ReqModel {
        match self {
            WebRequest::ServerTypeQuery => ReqModel::ServerTypeQuery,
            WebRequest::TextListQuery => ReqModel::TextListQuery,
            WebRequest::ItemQuery { id } => ReqModel::ItemQuery { id: id@ },
            WebRequest::MediaQuery { id } => ReqModel::MediaQuery { id: id@ },
        }
    }
}

/// A response the node sends back, correlated to the requester's session.
#[derive(Debug, PartialEq, Eq)]
pub enum WebResponse {
    ServerType { kind: ServerKind },
    ItemList { summaries: Vec<Vec<u8>> },
    Item { data: Vec<u8> },
    ErrorNotFound { id: u128 },
    ErrorInvalidId,
}

/// Spec-level image of a response.
pub enum RespModel {
    ServerType { kind: ServerKind },
    ItemList { summaries: Seq<Seq<u8>> },
    Item { data: Seq<u8> },
    ErrorNotFound { id: u128 },
    ErrorInvalidId,
}

impl View for WebResponse {
    type V = RespModel;

    open spec fn view(&self) -> RespModel {
        match self {
            WebResponse::ServerType { kind } => RespModel::ServerType { kind: *kind },
            WebResponse::ItemList { summaries } => RespModel::ItemList {
                summaries: summaries@.map_values(|s: Vec<u8>| s@),
            },
            WebResponse::Item { data } => RespModel::Item { data: data@ },
            WebResponse::ErrorNotFound { id } => RespModel::ErrorNotFound { id: *id },
            WebResponse::ErrorInvalidId => RespModel::ErrorInvalidId,
        }
    }
}

/// Big-endian bytes of a 32-bit length or count.
pub open spec fn spec_u32_be(n: u32) -> Seq<u8> {
    seq![
        ((n >> 24) & 0xff) as u8,
        ((n >> 16) & 0xff) as u8,
        ((n >> 8) & 0xff) as u8,
        (n & 0xff) as u8,
    ]
}

/// Big-endian bytes of a 128-bit content identifier.
pub open spec fn spec_u128_be(n: u128) -> Seq<u8> {
    Seq::new(16, |i: int| ((n >> (((15 - i) * 8) as u128)) & 0xff) as u8)
}

/// Byte encoding of a request: a tag byte, then the identifier text if any.
pub open spec fn spec_encode_request(r: ReqModel) -> Seq<u8> {
    match r {
        ReqModel::ServerTypeQuery => seq![0u8],
        ReqModel::TextListQuery => seq![1u8],
        ReqModel::ItemQuery { id } => seq![2u8] + id,
        ReqModel::MediaQuery { id } => seq![3u8] + id,
    }
}

/// The inverse reading: which request a byte payload denotes, if any.
pub open spec fn spec_decode_request(b: Seq<u8>) -> Option<ReqModel> {
    if b.len() == 1 && b[0] == 0 {
        Some(ReqModel::ServerTypeQuery)
    } else if b.len() == 1 && b[0] == 1 {
        Some(ReqModel::TextListQuery)
    } else if b.len() >= 1 && b[0] == 2 {
        Some(ReqModel::ItemQuery { id: b.skip(1) })
    } else if b.len() >= 1 && b[0] == 3 {
        Some(ReqModel::MediaQuery { id: b.skip(1) })
    } else {
        None
    }
}

/// Decoding inverts encoding: every encoded request reads back as itself.
pub proof fn lemma_request_codec_roundtrip(r: ReqModel)
    ensures
        spec_decode_request(spec_encode_request(r)) == Some(r),
{
    match r {
        ReqModel::ServerTypeQuery => {},
        ReqModel::TextListQuery => {},
        ReqModel::ItemQuery { id } => {
            assert((seq![2u8] + id).skip(1) =~= id);
        },
        ReqModel::MediaQuery { id } => {
            assert((seq![3u8] + id).skip(1) =~= id);
        },
    }
}

/// One summary inside an item list: 4-byte big-endian length, then the bytes.
pub open spec fn spec_encode_summary(s: Seq<u8>) -> Seq<u8> {
    spec_u32_be(s.len() as u32) + s
}

/// The summaries of an item list, encoded one after the other.
pub open spec fn spec_encode_summaries(ss: Seq<Seq<u8>>) -> Seq<u8>
    decreases ss.len(),
{
    if ss.len() == 0 {
        Seq::<u8>::empty()
    } else {
        spec_encode_summary(ss[0]) + spec_encode_summaries(ss.skip(1))
    }
}

/// Byte encoding of a response: a tag byte, then the tag's fields.
pub open spec fn spec_encode_response(r: RespModel) -> Seq<u8> {
    match r {
        RespModel::ServerType { kind } => seq![
            0u8,
            if kind == ServerKind::Text { 0u8 } else { 1u8 },
        ],
        RespModel::ItemList { summaries } => seq![1u8] + spec_u32_be(
            summaries.len() as u32,
        ) + spec_encode_summaries(summaries),
        RespModel::Item { data } => seq![2u8] + data,
        RespModel::ErrorNotFound { id } => seq![3u8] + spec_u128_be(id),
        RespModel::ErrorInvalidId => seq![4u8],
    }
}

/// Whether a response's variable-length parts fit the encoding's 4-byte
/// length fields.
pub open spec fn spec_response_size_ok(r: RespModel) -> bool {
    match r {
        RespModel::ItemList { summaries } => summaries.len() <= 0xffff_ffff && (forall|i: int|
            0 <= i < summaries.len() ==> #[trigger] summaries[i].len() <= 0xffff_ffff),
        _ => true,
    }
}

/// Appends the bytes of `src` to `dst`.
pub fn append_bytes(dst: &mut Vec<u8>, src: &Vec<u8>)
    ensures
        final(dst)@ == old(dst)@ + src@,
{
    let mut i: usize = 0;
    while i < src.len()
        invariant
            i <= src.len(),
            dst@ == old(dst)@ + src@.take(i as int),
        decreases src.len() - i,
    {
        dst.push(src[i]);
        proof {
            assert(old(dst)@ + src@.take(i as int) + seq![src@[i as int]] =~= old(dst)@
                + src@.take(i as int + 1));
        }
        i += 1;
    }
    proof {
        assert(src@.take(src@.len() as int) =~= src@);
    }
}

/// Appends the big-endian bytes of a 32-bit value to `dst`.
pub fn push_u32_be(dst: &mut Vec<u8>, n: u32)
    ensures
        final(dst)@ == old(dst)@ + spec_u32_be(n),
{
    dst.push(((n >> 24) & 0xff) as u8);
    dst.push(((n >> 16) & 0xff) as u8);
    dst.push(((n >> 8) & 0xff) as u8);
    dst.push((n & 0xff) as u8);
    proof {
        assert(dst@ =~= old(dst)@ + spec_u32_be(n));
    }
}

/// Appends the big-endian bytes of a 128-bit identifier to `dst`.
pub fn push_u128_be(dst: &mut Vec<u8>, n: u128)
    ensures
        final(dst)@ == old(dst)@ + spec_u128_be(n),
{
    let mut i: usize = 0;
    while i < 16
        invariant
            i <= 16,
            dst@ == old(dst)@ + spec_u128_be(n).take(i as int),
        decreases 16 - i,
    {
        let sh: u128 = ((15 - i) * 8) as u128;
        dst.push(((n >> sh) & 0xff) as u8);
        proof {
            assert(spec_u128_be(n)[i as int] == ((n >> sh) & 0xff) as u8);
            assert(old(dst)@ + spec_u128_be(n).take(i as int) + seq![spec_u128_be(n)[i as int]]
                =~= old(dst)@ + spec_u128_be(n).take(i as int + 1));
        }
        i += 1;
    }
    proof {
        assert(spec_u128_be(n).take(16) =~= spec_u128_be(n));
    }
}

/// The bytes of `b` from `start` on, as a fresh vector.
pub fn tail_from(b: &Vec<u8>, start: usize) -> (out: Vec<u8>)
    requires
        start <= b@.len(),
    ensures
        out@ == b@.skip(start as int),
{
    let mut out: Vec<u8> = Vec::new();
    let mut i: usize = start;
    while i < b.len()
        invariant
            start <= i <= b@.len(),
            out@ == b@.subrange(start as int, i as int),
        decreases b@.len() - i,
    {
        out.push(b[i]);
        proof {
            assert(b@.subrange(start as int, i as int) + seq![b@[i as int]] =~= b@.subrange(
                start as int,
                i as int + 1,
            ));
        }
        i += 1;
    }
    proof {
        assert(b@.subrange(start as int, b@.len() as int) =~= b@.skip(start as int));
    }
    out
}

/// The bytes of `b` in `[start, end)`, as a fresh vector.
pub fn slice_bytes(b: &Vec<u8>, start: usize, end: usize) -> (out: Vec<u8>)
    requires
        start <= end <= b@.len(),
    ensures
        out@ == b@.subrange(start as int, end as int),
{
    let mut out: Vec<u8> = Vec::new();
    let mut i: usize = start;
    while i < end
        invariant
            start <= i <= end <= b@.len(),
            out@ == b@.subrange(start as int, i as int),
        decreases end - i,
    {
        out.push(b[i]);
        proof {
            assert(b@.subrange(start as int, i as int) + seq![b@[i as int]] =~= b@.subrange(
                start as int,
                i as int + 1,
            ));
        }
        i += 1;
    }
    out
}

/// Turns a request into the byte payload that carries it.
pub fn encode_request(r: &WebRequest) -> (out: Vec<u8>)
    ensures
        out@ == spec_encode_request(r@),
{
    let mut out: Vec<u8> = Vec::new();
    match r {
        WebRequest::ServerTypeQuery => {
            out.push(0);
        },
        WebRequest::TextListQuery => {
            out.push(1);
        },
        WebRequest::ItemQuery { id } => {
            out.push(2);
            append_bytes(&mut out, id);
        },
        WebRequest::MediaQuery { id } => {
            out.push(3);
            append_bytes(&mut out, id);
        },
    }
    proof {
        assert(out@ =~= spec_encode_request(r@));
    }
    out
}

/// Reads a byte payload back as a request; `None` on a tag the schema lacks.
pub fn decode_request(b: &Vec<u8>) -> (r: Option<WebRequest>)
    ensures
        match r {
            Some(req) => spec_decode_request(b@) == Some(req@),
            None => spec_decode_request(b@) is None,
        },
{
    if b.len() == 0 {
        return None;
    }
    let tag = b[0];
    if tag == 0 {
        if b.len() == 1 {
            Some(WebRequest::ServerTypeQuery)
        } else {
            None
        }
    } else if tag == 1 {
        if b.len() == 1 {
            Some(WebRequest::TextListQuery)
        } else {
            None
        }
    } else if tag == 2 {
        let id = tail_from(b, 1);
        Some(WebRequest::ItemQuery { id })
    } else if tag == 3 {
        let id = tail_from(b, 1);
        Some(WebRequest::MediaQuery { id })
    } else {
        None
    }
}

/// Turns a response into the byte payload that carries it.
///
/// The 4-byte length fields force the count of summaries and each summary's
/// length to fit in 32 bits.
pub fn encode_response(r: &WebResponse) -> (out: Vec<u8>)
    requires
        spec_response_size_ok(r@),
    ensures
        out@ == spec_encode_response(r@),
{
    let mut out: Vec<u8> = Vec::new();
    match r {
        WebResponse::ServerType { kind } => {
            out.push(0);
            match kind {
                ServerKind::Text => out.push(0),
                ServerKind::Media => out.push(1),
            }
        },
        WebResponse::ItemList { summaries } => {
            out.push(1);
            push_u32_be(&mut out, summaries.len() as u32);
            let ghost ss = summaries@.map_values(|s: Vec<u8>| s@);
            let mut i: usize = 0;
            while i < summaries.len()
                invariant
                    i <= summaries.len(),
                    ss == summaries@.map_values(|s: Vec<u8>| s@),
                    ss.len() == summaries@.len(),
                    forall|j: int| 0 <= j < ss.len() ==> #[trigger] ss[j].len() <= 0xffff_ffff,
                    out@ == seq![1u8] + spec_u32_be(summaries@.len() as u32)
                        + spec_encode_summaries(ss.take(i as int)),
                decreases summaries.len() - i,
            {
                let s = &summaries[i];
                push_u32_be(&mut out, s.len() as u32);
                append_bytes(&mut out, s);
                proof {
                    lemma_encode_summaries_snoc(ss, i as int);
                }
                i += 1;
            }
            proof {
                assert(ss.take(ss.len() as int) =~= ss);
            }
        },
        WebResponse::Item { data } => {
            out.push(2);
            append_bytes(&mut out, data);
        },
        WebResponse::ErrorNotFound { id } => {
            out.push(3);
            push_u128_be(&mut out, *id);
        },
        WebResponse::ErrorInvalidId => {
            out.push(4);
        },
    }
    proof {
        assert(out@ =~= spec_encode_response(r@));
    }
    out
}

/// Encoding the first `i + 1` summaries appends the encoding of the `i`-th
/// to the encoding of the first `i`.
pub proof fn lemma_encode_summaries_snoc(ss: Seq<Seq<u8>>, i: int)
    requires
        0 <= i < ss.len(),
    ensures
        spec_encode_summaries(ss.take(i + 1)) == spec_encode_summaries(ss.take(i))
            + spec_encode_summary(ss[i]),
    decreases i,
{
    if i == 0 {
        let t = ss.take(1);
        assert(t.len() == 1);
        assert(t[0] == ss[0]);
        assert(t.skip(1) =~= Seq::<Seq<u8>>::empty());
        assert(ss.take(0) =~= Seq::<Seq<u8>>::empty());
        assert(spec_encode_summaries(t) == spec_encode_summary(ss[0]) + spec_encode_summaries(
            Seq::<Seq<u8>>::empty(),
        ));
        assert(spec_encode_summary(ss[0]) + Seq::<u8>::empty() =~= spec_encode_summary(ss[0]));
        assert(spec_encode_summaries(ss.take(0)) + spec_encode_summary(ss[0])
            =~= spec_encode_summary(ss[0]));
    } else {
        lemma_encode_summaries_snoc(ss.skip(1), i - 1);
        assert(ss.take(i + 1).skip(1) =~= ss.skip(1).take(i));
        assert(ss.take(i).skip(1) =~= ss.skip(1).take(i - 1));
        assert(spec_encode_summaries(ss.take(i + 1)) == spec_encode_summary(ss[0])
            + spec_encode_summaries(ss.skip(1).take(i)));
        assert(spec_encode_summaries(ss.take(i)) == spec_encode_summary(ss[0])
            + spec_encode_summaries(ss.skip(1).take(i - 1)));
        assert(spec_encode_summary(ss[0]) + (spec_encode_summaries(ss.skip(1).take(i - 1))
            + spec_encode_summary(ss.skip(1)[i - 1])) =~= (spec_encode_summary(ss[0])
            + spec_encode_summaries(ss.skip(1).take(i - 1))) + spec_encode_summary(ss[i]));
    }
}

} // verus!
