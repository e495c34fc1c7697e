//! The DataForge binary envelope ("DF01"): a 30-byte big-endian header,
//! followed by the metadata block and the data block.
use vstd::prelude::*;

verus! {

/// The type of the metadata block of an envelope.
#[derive(Debug, Clone, Copy, PartialEq, Eq, Structural)]
pub enum MetaType {
    Undefined,
    Json,
    Qdatastream,
}

/// The numeric code of a metadata type, as it stands in the header.
pub open spec fn meta_type_code(m: MetaType) -> u32 {
    match m {
        MetaType::Undefined => 0x00000000,
        MetaType::Json => 0x00010000,
        MetaType::Qdatastream => 0x00010007,
    }
}

/// The metadata type that a header code stands for, if any.
pub open spec fn meta_type_of_code(code: u32) -> Option<MetaType> {
    if code == 0x00000000 {
        Some(MetaType::Undefined)
    } else if code == 0x00010000 {
        Some(MetaType::Json)
    } else if code == 0x00010007 {
        Some(MetaType::Qdatastream)
    } else {
        None
    }
}

impl MetaType {
    /// The code of this metadata type.
    pub fn code(&self) -> (r: u32)
        ensures
            r == meta_type_code(*self),
    {
        match self {
            MetaType::Undefined => 0x00000000,
            MetaType::Json => 0x00010000,
            MetaType::Qdatastream => 0x00010007,
        }
    }

    /// The metadata type of a code, `None` for a code that names none.
    pub fn from_code(v: u32) -> (r: Option<MetaType>)
        ensures
            r == meta_type_of_code(v),
    {
        if v == 0x00000000 {
            Some(MetaType::Undefined)
        } else if v == 0x00010000 {
            Some(MetaType::Json)
        } else if v == 0x00010007 {
            Some(MetaType::Qdatastream)
        } else {
            None
        }
    }

    /// Conversion from a known code; unknown codes are outside the domain.
    pub fn try_from(v: u32) -> (r: Result<MetaType, ()>)
        requires
            meta_type_of_code(v) is Some,
        ensures
            r == Ok::<MetaType, ()>(meta_type_of_code(v).unwrap()),
    {
        match MetaType::from_code(v) {
            Some(m) => Ok(m),
            None => Err(()),
        }
    }
}

/// A decoded envelope header.
#[derive(Debug, Clone, Copy, PartialEq, Eq, Structural)]
pub enum DFBinaryHeader {
    DFText,
    DF01 { time: u32, meta_type: MetaType, meta_len: usize, data_type: u32, data_len: usize },
}

/// Why a byte sequence is not a well-formed envelope.
#[derive(Debug, Clone, Copy, PartialEq, Eq, Structural)]
pub enum DFError {
    /// The input ends before the part that is being read.
    UnexpectedEnd,
    /// The first two bytes are not `#!`.
    UnsupportedOpenScope,
    /// The header type word is not `0x00014000`.
    UnexpectedHeaderType(u32),
    /// The metadata type word names no known type.
    UnknownMetaType(u32),
    /// The header does not end with `!#\r\n`.
    UnexpectedCloseScope,
    /// The metadata block is of a type other than JSON.
    MetaTypeNotSupported(MetaType),
    /// The header is a text header, whose body has no decoding.
    TextHeaderNotSupported,
}

/// A decoded message: the metadata and the optional data block.
pub struct DFMessage<T> {
    pub meta: T,
    pub data: Option<Vec<u8>>,
}

/// The value of the tag word that opens every DF01 header.
pub const DF01_HEADER_TYPE: u32 = 0x00014000;

/// The length of a DF01 header in bytes.
pub const DF01_HEADER_LEN: usize = 30;

/// A big-endian 32-bit word from its four bytes.
pub open spec fn be_u32(b0: u8, b1: u8, b2: u8, b3: u8) -> u32 {
    ((b0 as u32) << 24u32) | ((b1 as u32) << 16u32) | ((b2 as u32) << 8u32) | (b3 as u32)
}

/// The big-endian word that starts at `i`.
pub open spec fn be_u32_at(s: Seq<u8>, i: int) -> u32 {
    be_u32(s[i], s[i + 1], s[i + 2], s[i + 3])
}

/// The four big-endian bytes of a word.
pub open spec fn u32_be_bytes(v: u32) -> Seq<u8> {
    seq![(v >> 24u32) as u8, (v >> 16u32) as u8, (v >> 8u32) as u8, v as u8]
}

/// `#!`
pub open spec fn open_scope() -> Seq<u8> {
    seq![0x23u8, 0x21u8]
}

/// `!#\r\n`
pub open spec fn close_scope() -> Seq<u8> {
    seq![0x21u8, 0x23u8, 0x0du8, 0x0au8]
}

/// `\r\n`, which ends the metadata block.
pub open spec fn metadata_ending() -> Seq<u8> {
    seq![0x0du8, 0x0au8]
}

/// How the header at the start of `s` decodes, field after field, the first
/// failure deciding the error.
pub open spec fn spec_parse_binary_header(s: Seq<u8>) -> Result<DFBinaryHeader, DFError> {
    if s.len() < 2 {
        Err(DFError::UnexpectedEnd)
    } else if s.subrange(0, 2) != open_scope() {
        Err(DFError::UnsupportedOpenScope)
    } else if s.len() < 6 {
        Err(DFError::UnexpectedEnd)
    } else if be_u32_at(s, 2) != DF01_HEADER_TYPE {
        Err(DFError::UnexpectedHeaderType(be_u32_at(s, 2)))
    } else if s.len() < 14 {
        Err(DFError::UnexpectedEnd)
    } else if meta_type_of_code(be_u32_at(s, 10)) is None {
        Err(DFError::UnknownMetaType(be_u32_at(s, 10)))
    } else if s.len() < 30 {
        Err(DFError::UnexpectedEnd)
    } else if s.subrange(26, 30) != close_scope() {
        Err(DFError::UnexpectedCloseScope)
    } else {
        Ok(
            DFBinaryHeader::DF01 {
                time: be_u32_at(s, 6),
                meta_type: meta_type_of_code(be_u32_at(s, 10)).unwrap(),
                meta_len: be_u32_at(s, 14) as usize,
                data_type: be_u32_at(s, 18),
                data_len: be_u32_at(s, 22) as usize,
            },
        )
    }
}

/// The 30 bytes of a DF01 header with the given fields.
pub open spec fn spec_header_bytes(
    time: u32,
    meta_type: MetaType,
    meta_len: u32,
    data_type: u32,
    data_len: u32,
) -> Seq<u8> {
    open_scope() + u32_be_bytes(DF01_HEADER_TYPE) + u32_be_bytes(time) + u32_be_bytes(
        meta_type_code(meta_type),
    ) + u32_be_bytes(meta_len) + u32_be_bytes(data_type) + u32_be_bytes(data_len)
        + close_scope()
}

fn read_be_u32(bytes: &[u8], i: usize) -> (r: u32)
    requires
        i + 4 <= bytes@.len(),
    ensures
        r == be_u32_at(bytes@, i as int),
{
    ((bytes[i] as u32) << 24u32) | ((bytes[i + 1] as u32) << 16u32) | ((bytes[i + 2] as u32)
        << 8u32) | (bytes[i + 3] as u32)
}

fn push_be_u32(buf: &mut Vec<u8>, v: u32)
    ensures
        final(buf)@ == old(buf)@ + u32_be_bytes(v),
{
    buf.push((v >> 24u32) as u8);
    buf.push((v >> 16u32) as u8);
    buf.push((v >> 8u32) as u8);
    buf.push(v as u8);
}

/// Decodes the header at the start of `bytes`.
pub fn parse_binary_header(bytes: &[u8]) -> (r: Result<DFBinaryHeader, DFError>)
    ensures
        r == spec_parse_binary_header(bytes@),
{
    let n = bytes.len();
    if n < 2 {
        return Err(DFError::UnexpectedEnd);
    }
    if !(bytes[0] == 0x23u8 && bytes[1] == 0x21u8) {
        assert(bytes@.subrange(0, 2) != open_scope()) by {
            if bytes@.subrange(0, 2) == open_scope() {
                assert(bytes@.subrange(0, 2)[0] == bytes@[0]);
                assert(bytes@.subrange(0, 2)[1] == bytes@[1]);
            }
        }
        return Err(DFError::UnsupportedOpenScope);
    }
    assert(bytes@.subrange(0, 2) =~= open_scope());
    if n < 6 {
        return Err(DFError::UnexpectedEnd);
    }
    let header_type = read_be_u32(bytes, 2);
    if header_type != DF01_HEADER_TYPE {
        return Err(DFError::UnexpectedHeaderType(header_type));
    }
    if n < 14 {
        return Err(DFError::UnexpectedEnd);
    }
    let time = read_be_u32(bytes, 6);
    let meta_code = read_be_u32(bytes, 10);
    let meta_type = match MetaType::from_code(meta_code) {
        Some(m) => m,
        None => {
            return Err(DFError::UnknownMetaType(meta_code));
        },
    };
    if n < 30 {
        return Err(DFError::UnexpectedEnd);
    }
    let meta_len = read_be_u32(bytes, 14);
    let data_type = read_be_u32(bytes, 18);
    let data_len = read_be_u32(bytes, 22);
    if !(bytes[26] == 0x21u8 && bytes[27] == 0x23u8 && bytes[28] == 0x0du8 && bytes[29] == 0x0au8) {
        assert(bytes@.subrange(26, 30) != close_scope()) by {
            if bytes@.subrange(26, 30) == close_scope() {
                assert(bytes@.subrange(26, 30)[0] == bytes@[26]);
                assert(bytes@.subrange(26, 30)[1] == bytes@[27]);
                assert(bytes@.subrange(26, 30)[2] == bytes@[28]);
                assert(bytes@.subrange(26, 30)[3] == bytes@[29]);
            }
        }
        return Err(DFError::UnexpectedCloseScope);
    }
    assert(bytes@.subrange(26, 30) =~= close_scope());
    Ok(
        DFBinaryHeader::DF01 {
            time,
            meta_type,
            meta_len: meta_len as usize,
            data_type,
            data_len: data_len as usize,
        },
    )
}

/// Encodes a DF01 header.
pub fn encode_df01_header(
    time: u32,
    meta_type: MetaType,
    meta_len: u32,
    data_type: u32,
    data_len: u32,
) -> (r: Vec<u8>)
    ensures
        r@ == spec_header_bytes(time, meta_type, meta_len, data_type, data_len),
        r@.len() == 30,
{
    let mut buf: Vec<u8> = Vec::with_capacity(30);
    buf.push(0x23u8);
    buf.push(0x21u8);
    assert(buf@ =~= open_scope());
    push_be_u32(&mut buf, DF01_HEADER_TYPE);
    push_be_u32(&mut buf, time);
    push_be_u32(&mut buf, meta_type.code());
    push_be_u32(&mut buf, meta_len);
    push_be_u32(&mut buf, data_type);
    push_be_u32(&mut buf, data_len);
    let ghost before = buf@;
    buf.push(0x21u8);
    buf.push(0x23u8);
    buf.push(0x0du8);
    buf.push(0x0au8);
    assert(buf@ =~= before + close_scope());
    buf
}

/// The bytes of a word read back give the word.
pub proof fn lemma_be_u32_roundtrip(v: u32)
    ensures
        be_u32((v >> 24u32) as u8, (v >> 16u32) as u8, (v >> 8u32) as u8, v as u8) == v,
{
    assert(((((v >> 24u32) as u8) as u32) << 24u32) | ((((v >> 16u32) as u8) as u32) << 16u32)
        | ((((v >> 8u32) as u8) as u32) << 8u32) | ((v as u8) as u32) == v) by (bit_vector);
}

/// Decoding an encoded DF01 header gives back its fields.
pub proof fn lemma_header_roundtrip(
    time: u32,
    meta_type: MetaType,
    meta_len: u32,
    data_type: u32,
    data_len: u32,
)
    ensures
        spec_parse_binary_header(
            spec_header_bytes(time, meta_type, meta_len, data_type, data_len),
        ) == Ok::<DFBinaryHeader, DFError>(
            DFBinaryHeader::DF01 {
                time,
                meta_type,
                meta_len: meta_len as usize,
                data_type,
                data_len: data_len as usize,
            },
        ),
{
    let s = spec_header_bytes(time, meta_type, meta_len, data_type, data_len);
    let code = meta_type_code(meta_type);
    lemma_be_u32_roundtrip(DF01_HEADER_TYPE);
    lemma_be_u32_roundtrip(time);
    lemma_be_u32_roundtrip(code);
    lemma_be_u32_roundtrip(meta_len);
    lemma_be_u32_roundtrip(data_type);
    lemma_be_u32_roundtrip(data_len);
    assert(s.len() == 30);
    assert(s.subrange(0, 2) =~= open_scope());
    assert(s.subrange(26, 30) =~= close_scope());
    assert(be_u32_at(s, 2) == DF01_HEADER_TYPE);
    assert(be_u32_at(s, 6) == time);
    assert(be_u32_at(s, 10) == code);
    assert(be_u32_at(s, 14) == meta_len);
    assert(be_u32_at(s, 18) == data_type);
    assert(be_u32_at(s, 22) == data_len);
    assert(meta_type_of_code(code) == Some(meta_type));
}

/// The data block of an optional data argument: empty when there is none.
pub open spec fn data_bytes(data: Option<Seq<u8>>) -> Seq<u8> {
    match data {
        Some(d) => d,
        None => Seq::empty(),
    }
}

/// The data length word written for an optional data block (truncated to 32 bits).
pub open spec fn data_len_word(data: Option<Seq<u8>>) -> u32 {
    match data {
        Some(d) => d.len() as u32,
        None => 0u32,
    }
}

/// The bytes of a message with JSON metadata `meta` (without its ending), written at
/// `time`: header, metadata followed by `\r\n`, then the data block.
pub open spec fn spec_encode_df_message(time: u32, meta: Seq<u8>, data: Option<Seq<u8>>) -> Seq<
    u8,
> {
    let meta_vec = meta + metadata_ending();
    spec_header_bytes(time, MetaType::Json, meta_vec.len() as u32, 0u32, data_len_word(data))
        + meta_vec + data_bytes(data)
}

/// How a whole message at the start of `s` decodes: its header, the raw metadata block,
/// the data block (`None` when the header announces no data) and the number of bytes
/// the message takes.
pub open spec fn spec_parse_df_message(s: Seq<u8>) -> Result<
    (DFBinaryHeader, Seq<u8>, Option<Seq<u8>>, nat),
    DFError,
> {
    match spec_parse_binary_header(s) {
        Err(e) => Err(e),
        Ok(DFBinaryHeader::DFText) => Err(DFError::TextHeaderNotSupported),
        Ok(DFBinaryHeader::DF01 { time, meta_type, meta_len, data_type, data_len }) => {
            let meta_end = 30 + meta_len;
            if s.len() < meta_end {
                Err(DFError::UnexpectedEnd)
            } else if meta_type != MetaType::Json {
                Err(DFError::MetaTypeNotSupported(meta_type))
            } else if data_len == 0 {
                Ok(
                    (
                        DFBinaryHeader::DF01 { time, meta_type, meta_len, data_type, data_len },
                        s.subrange(30, meta_end),
                        None,
                        meta_end as nat,
                    ),
                )
            } else if s.len() < meta_end + data_len {
                Err(DFError::UnexpectedEnd)
            } else {
                Ok(
                    (
                        DFBinaryHeader::DF01 { time, meta_type, meta_len, data_type, data_len },
                        s.subrange(30, meta_end),
                        Some(s.subrange(meta_end, meta_end + data_len)),
                        (meta_end + data_len) as nat,
                    ),
                )
            }
        },
    }
}

/// The view of an optional byte vector.
pub open spec fn opt_bytes_view(o: Option<Vec<u8>>) -> Option<Seq<u8>> {
    match o {
        Some(v) => Some(v@),
        None => None,
    }
}

/// The view of an optional byte slice.
pub open spec fn opt_slice_view(o: Option<&[u8]>) -> Option<Seq<u8>> {
    match o {
        Some(v) => Some(v@),
        None => None,
    }
}

fn copy_range(bytes: &[u8], start: usize, end: usize) -> (r: Vec<u8>)
    requires
        start <= end <= bytes@.len(),
    ensures
        r@ == bytes@.subrange(start as int, end as int),
{
    let mut out: Vec<u8> = Vec::with_capacity(end - start);
    let mut i = start;
    while i < end
        invariant
            start <= i <= end <= bytes@.len(),
            out@ == bytes@.subrange(start as int, i as int),
        decreases end - i,
    {
        out.push(bytes[i]);
        i += 1;
        assert(out@ =~= bytes@.subrange(start as int, i as int));
    }
    out
}

fn extend_from(buf: &mut Vec<u8>, bytes: &[u8])
    ensures
        final(buf)@ == old(buf)@ + bytes@,
{
    let mut i: usize = 0;
    while i < bytes.len()
        invariant
            i <= bytes@.len(),
            buf@ == old(buf)@ + bytes@.subrange(0, i as int),
        decreases bytes@.len() - i,
    {
        buf.push(bytes[i]);
        i += 1;
        assert(buf@ =~= old(buf)@ + bytes@.subrange(0, i as int));
    }
    assert(bytes@.subrange(0, bytes@.len() as int) =~= bytes@);
}

/// Decodes the message at the start of `bytes`; on success also returns the number of
/// bytes it takes.
pub fn parse_df_message(bytes: &[u8]) -> (r: Result<
    (DFBinaryHeader, DFMessage<Vec<u8>>, usize),
    DFError,
>)
    ensures
        match r {
            Ok((h, m, n)) => spec_parse_df_message(bytes@) == Ok::<
                (DFBinaryHeader, Seq<u8>, Option<Seq<u8>>, nat),
                DFError,
            >((h, m.meta@, opt_bytes_view(m.data), n as nat)),
            Err(e) => spec_parse_df_message(bytes@) == Err::<
                (DFBinaryHeader, Seq<u8>, Option<Seq<u8>>, nat),
                DFError,
            >(e),
        },
{
    let header = parse_binary_header(bytes)?;
    match header {
        DFBinaryHeader::DFText => Err(DFError::TextHeaderNotSupported),
        DFBinaryHeader::DF01 { time, meta_type, meta_len, data_type, data_len } => {
            let n = bytes.len();
            if n - 30 < meta_len {
                return Err(DFError::UnexpectedEnd);
            }
            let meta_end = 30 + meta_len;
            let meta = copy_range(bytes, 30, meta_end);
            match meta_type {
                MetaType::Json => {},
                _ => {
                    return Err(DFError::MetaTypeNotSupported(meta_type));
                },
            }
            if data_len == 0 {
                return Ok((header, DFMessage { meta, data: None }, meta_end));
            }
            if n - meta_end < data_len {
                return Err(DFError::UnexpectedEnd);
            }
            let data = copy_range(bytes, meta_end, meta_end + data_len);
            Ok((header, DFMessage { meta, data: Some(data) }, meta_end + data_len))
        },
    }
}

/// Whether an envelope error is one on which the readers stop for good (a malformed
/// header, a text header or metadata that is not JSON), rather than input that ends
/// before the part being read.
pub open spec fn is_fatal(e: DFError) -> bool {
    e != DFError::UnexpectedEnd
}

/// Decodes the header at the start of `bytes`, which must not be malformed: the
/// readers stop for good on a wrong opening, header type, metadata type code or
/// closing. What can still fail is an early end; a text header never comes out.
pub fn decode_binary_header(bytes: &[u8]) -> (r: Result<DFBinaryHeader, DFError>)
    requires
        !(spec_parse_binary_header(bytes@) matches Err(e) && is_fatal(e)),
    ensures
        r == spec_parse_binary_header(bytes@),
        r matches Err(e) ==> e == DFError::UnexpectedEnd,
        r matches Ok(h) ==> h is DF01,
{
    parse_binary_header(bytes)
}

/// How the header and the metadata block at the start of `s` decode: the header and
/// the raw metadata, which must be JSON.
pub open spec fn spec_parse_df_meta(s: Seq<u8>) -> Result<(DFBinaryHeader, Seq<u8>), DFError> {
    match spec_parse_binary_header(s) {
        Err(e) => Err(e),
        Ok(DFBinaryHeader::DFText) => Err(DFError::TextHeaderNotSupported),
        Ok(DFBinaryHeader::DF01 { time, meta_type, meta_len, data_type, data_len }) => {
            let meta_end = 30 + meta_len;
            if s.len() < meta_end {
                Err(DFError::UnexpectedEnd)
            } else if meta_type != MetaType::Json {
                Err(DFError::MetaTypeNotSupported(meta_type))
            } else {
                Ok((DFBinaryHeader::DF01 { time, meta_type, meta_len, data_type, data_len }, s.subrange(30, meta_end)))
            }
        },
    }
}

/// Decodes the header and the metadata block at the start of `bytes`, leaving the data
/// block unread.
pub fn parse_df_meta(bytes: &[u8]) -> (r: Result<(DFBinaryHeader, Vec<u8>), DFError>)
    ensures
        match r {
            Ok((h, m)) => spec_parse_df_meta(bytes@) == Ok::<(DFBinaryHeader, Seq<u8>), DFError>((h, m@)),
            Err(e) => spec_parse_df_meta(bytes@) == Err::<(DFBinaryHeader, Seq<u8>), DFError>(e),
        },
{
    let header = parse_binary_header(bytes)?;
    match header {
        DFBinaryHeader::DFText => Err(DFError::TextHeaderNotSupported),
        DFBinaryHeader::DF01 { meta_type, meta_len, .. } => {
            let n = bytes.len();
            if n - 30 < meta_len {
                return Err(DFError::UnexpectedEnd);
            }
            let meta_end = 30 + meta_len;
            let meta = copy_range(bytes, 30, meta_end);
            match meta_type {
                MetaType::Json => Ok((header, meta)),
                _ => Err(DFError::MetaTypeNotSupported(meta_type)),
            }
        },
    }
}

/// Decodes the message at the start of `bytes`, which must not be malformed and must
/// carry JSON metadata (the readers stop for good otherwise). What can still fail is
/// an early end.
pub fn decode_df_message(bytes: &[u8]) -> (r: Result<
    (DFBinaryHeader, DFMessage<Vec<u8>>, usize),
    DFError,
>)
    requires
        !(spec_parse_df_message(bytes@) matches Err(e) && is_fatal(e)),
    ensures
        match r {
            Ok((h, m, n)) => spec_parse_df_message(bytes@) == Ok::<
                (DFBinaryHeader, Seq<u8>, Option<Seq<u8>>, nat),
                DFError,
            >((h, m.meta@, opt_bytes_view(m.data), n as nat)),
            Err(e) => e == DFError::UnexpectedEnd && spec_parse_df_message(bytes@) == Err::<
                (DFBinaryHeader, Seq<u8>, Option<Seq<u8>>, nat),
                DFError,
            >(e),
        },
{
    parse_df_message(bytes)
}

/// Encodes a message whose JSON metadata is `meta` (the `\r\n` ending is added here),
/// stamped with `time`. The length words are the lengths truncated to 32 bits.
pub fn encode_df_message(time: u32, meta: &[u8], data: Option<&[u8]>) -> (r: Vec<u8>)
    requires
        meta@.len() + 32 + data_bytes(opt_slice_view(data)).len() <= usize::MAX,
    ensures
        r@ == spec_encode_df_message(time, meta@, opt_slice_view(data)),
{
    let meta_len: usize = meta.len() + 2;
    let data_len: u32 = match data {
        Some(d) => {
            #[verifier::truncate]
            (d.len() as u32)
        },
        None => 0u32,
    };
    let mut buf = encode_df01_header(
        time,
        MetaType::Json,
        #[verifier::truncate]
        (meta_len as u32),
        0u32,
        data_len,
    );
    let ghost header = buf@;
    extend_from(&mut buf, meta);
    buf.push(0x0du8);
    buf.push(0x0au8);
    assert(buf@ =~= header + (meta@ + metadata_ending()));
    let ghost with_meta = buf@;
    match data {
        Some(d) => {
            extend_from(&mut buf, d);
        },
        None => {
            assert(buf@ =~= with_meta + data_bytes(opt_slice_view(data)));
        },
    }
    buf
}

/// The header decodes from its first 30 bytes alone.
pub proof fn lemma_header_prefix(s: Seq<u8>, rest: Seq<u8>)
    requires
        s.len() >= 30,
    ensures
        spec_parse_binary_header(s + rest) == spec_parse_binary_header(s),
{
    let t = s + rest;
    assert(t.subrange(0, 2) =~= s.subrange(0, 2));
    assert(t.subrange(26, 30) =~= s.subrange(26, 30));
    assert(forall|i: int| 0 <= i < 30 ==> t[i] == s[i]);
}

/// What a read gives back of a write: decoding an encoded message, followed by any
/// further bytes, gives its header fields, the metadata with its `\r\n` ending, the
/// data block when it is not empty (`None` when there is none or it is empty), and
/// the length of the encoding.
pub proof fn lemma_message_roundtrip(
    time: u32,
    meta: Seq<u8>,
    data: Option<Seq<u8>>,
    rest: Seq<u8>,
)
    requires
        meta.len() + 2 <= u32::MAX,
        data_bytes(data).len() <= u32::MAX,
    ensures
        spec_parse_df_message(spec_encode_df_message(time, meta, data) + rest) == Ok::<
            (DFBinaryHeader, Seq<u8>, Option<Seq<u8>>, nat),
            DFError,
        >(
            (
                DFBinaryHeader::DF01 {
                    time,
                    meta_type: MetaType::Json,
                    meta_len: (meta.len() + 2) as usize,
                    data_type: 0u32,
                    data_len: data_bytes(data).len() as usize,
                },
                meta + metadata_ending(),
                if data_bytes(data).len() == 0 {
                    None
                } else {
                    data
                },
                30 + meta.len() + 2 + data_bytes(data).len(),
            ),
        ),
{
    let meta_vec = meta + metadata_ending();
    let d = data_bytes(data);
    let h = spec_header_bytes(
        time,
        MetaType::Json,
        meta_vec.len() as u32,
        0u32,
        data_len_word(data),
    );
    let enc = spec_encode_df_message(time, meta, data);
    let s = enc + rest;
    assert(data_len_word(data) == d.len());
    lemma_header_roundtrip(time, MetaType::Json, meta_vec.len() as u32, 0u32, data_len_word(data));
    assert(h.len() == 30);
    assert(s =~= h + (meta_vec + d + rest));
    lemma_header_prefix(h, meta_vec + d + rest);
    let meta_end: int = 30 + meta_vec.len() as int;
    assert(s.subrange(30, meta_end) =~= meta_vec);
    if d.len() > 0 {
        assert(s.subrange(meta_end, meta_end + d.len() as int) =~= d);
    }
}

/// An empty data block is written exactly as no data block, so both read back as
/// `None`.
pub proof fn lemma_empty_data_encodes_as_none(time: u32, meta: Seq<u8>)
    ensures
        spec_encode_df_message(time, meta, Some(Seq::<u8>::empty())) == spec_encode_df_message(time, meta, None),
{
    assert(data_len_word(Some(Seq::<u8>::empty())) == 0u32);
    assert(data_bytes(Some(Seq::<u8>::empty())) =~= data_bytes(None));
}

} // verus!
