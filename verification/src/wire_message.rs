use crate::message::{Content, Envelope, Message, MessageContent};
use crate::time::{Duration, Timestamp, NANOS_PER_SEC};
use crate::types::{MessageId, UserId};
use crate::wire::{
    control_bytes,
    lemma_parse_control,
    lemma_parse_u32,
    lemma_parse_u64,
    lemma_parse_u8,
    lemma_parse_user,
    parse_control,
    parse_u32,
    parse_u64,
    parse_u8,
    parse_user,
    put,
    put_control,
    put_u32,
    put_u64,
    put_user,
    read_control,
    read_u32,
    read_u64,
    read_u8,
    read_user,
    DecodeError,
};
use vstd::bytes::{spec_u32_to_le_bytes, spec_u64_to_le_bytes};
use vstd::prelude::*;
use vstd::slice::{slice_subrange, slice_to_vec};
use vstd::utf8::{
    decode_utf8,
    encode_utf8,
    encode_utf8_decode_utf8,
    encode_utf8_valid_utf8,
    valid_utf8,
};

verus! {

/// Calls `String::from_utf8`, which checks that the bytes are valid UTF-8
/// and, where they are, hands them back as a string without changing them.
#[verifier::external_body]
fn string_from_utf8(raw: Vec<u8>) -> (r: Option<String>)
    ensures
        r is Some <==> valid_utf8(raw@),
        r matches Some(text) ==> encode_utf8(text@) == raw@,
{
    match String::from_utf8(raw) {
        Ok(text) => Some(text),
        Err(_) => None,
    }
}

/// The wire form of a run of bytes: its length as eight bytes, low byte
/// first, and then the bytes.
pub open spec fn blob_bytes(data: Seq<u8>) -> Seq<u8> {
    spec_u64_to_le_bytes(data.len() as u64) + data
}

/// The wire form of a text: its UTF-8 bytes as a run of bytes.
pub open spec fn text_bytes(text: Seq<char>) -> Seq<u8> {
    blob_bytes(encode_utf8(text))
}

/// The wire form of a message content: the variant's tag as four bytes, low
/// byte first, then the fields in their order.
pub open spec fn content_bytes(content: Content) -> Seq<u8> {
    match content {
        Content::Text(text) => spec_u32_to_le_bytes(0) + text_bytes(text),
        Content::File { name, data } => spec_u32_to_le_bytes(1) + text_bytes(name) + blob_bytes(
            data,
        ),
        Content::Routing(packet) => spec_u32_to_le_bytes(2) + control_bytes(packet),
    }
}

pub(crate) open spec fn parse_blob(b: Seq<u8>) -> Option<(Seq<u8>, Seq<u8>)> {
    match parse_u64(b) {
        None => None,
        Some((count, b1)) => if b1.len() >= count {
            Some((b1.take(count as int), b1.skip(count as int)))
        } else {
            None
        },
    }
}

pub(crate) open spec fn parse_text(b: Seq<u8>) -> Option<(Seq<char>, Seq<u8>)> {
    match parse_blob(b) {
        None => None,
        Some((raw, rest)) => if valid_utf8(raw) {
            Some((decode_utf8(raw), rest))
        } else {
            None
        },
    }
}

pub(crate) open spec fn parse_content(b: Seq<u8>) -> Option<(Content, Seq<u8>)> {
    match parse_u32(b) {
        None => None,
        Some((tag, b1)) => if tag == 0 {
            match parse_text(b1) {
                None => None,
                Some((text, b2)) => Some((Content::Text(text), b2)),
            }
        } else if tag == 1 {
            match parse_text(b1) {
                None => None,
                Some((name, b2)) => match parse_blob(b2) {
                    None => None,
                    Some((data, b3)) => Some((Content::File { name, data }, b3)),
                },
            }
        } else if tag == 2 {
            match parse_control(b1) {
                None => None,
                Some((packet, b2)) => Some((Content::Routing(packet), b2)),
            }
        } else {
            None
        },
    }
}

pub(crate) proof fn lemma_parse_blob(data: Seq<u8>, rest: Seq<u8>)
    requires
        data.len() <= u64::MAX,
    ensures
        parse_blob(blob_bytes(data) + rest) == Some((data, rest)),
{
    let b1 = data + rest;
    assert(blob_bytes(data) + rest =~= spec_u64_to_le_bytes(data.len() as u64) + b1);
    lemma_parse_u64(data.len() as u64, b1);
    assert(b1.take(data.len() as int) =~= data);
    assert(b1.skip(data.len() as int) =~= rest);
}

pub(crate) proof fn lemma_parse_text(text: Seq<char>, rest: Seq<u8>)
    requires
        encode_utf8(text).len() <= u64::MAX,
    ensures
        parse_text(text_bytes(text) + rest) == Some((text, rest)),
{
    lemma_parse_blob(encode_utf8(text), rest);
    encode_utf8_valid_utf8(text);
    encode_utf8_decode_utf8(text);
}

pub(crate) proof fn lemma_parse_content(content: Content, rest: Seq<u8>)
    requires
        content.fits(),
    ensures
        parse_content(content_bytes(content) + rest) == Some((content, rest)),
{
    let b = content_bytes(content) + rest;
    match content {
        Content::Text(text) => {
            let b1 = text_bytes(text) + rest;
            assert(b =~= spec_u32_to_le_bytes(0) + b1);
            lemma_parse_u32(0, b1);
            lemma_parse_text(text, rest);
        },
        Content::File { name, data } => {
            let b2 = blob_bytes(data) + rest;
            let b1 = text_bytes(name) + b2;
            assert(b =~= spec_u32_to_le_bytes(1) + b1);
            lemma_parse_u32(1, b1);
            lemma_parse_text(name, b2);
            lemma_parse_blob(data, rest);
        },
        Content::Routing(packet) => {
            let b1 = control_bytes(packet) + rest;
            assert(b =~= spec_u32_to_le_bytes(2) + b1);
            lemma_parse_u32(2, b1);
            lemma_parse_control(packet, rest);
        },
    }
}

/// Bytes begin with the wire form of at most one content.
pub proof fn lemma_content_bytes_prefix_free(p: Content, q: Content, bytes: Seq<u8>)
    requires
        p.fits(),
        q.fits(),
        content_bytes(p).is_prefix_of(bytes),
        content_bytes(q).is_prefix_of(bytes),
    ensures
        p == q,
{
    let rest_p = bytes.skip(content_bytes(p).len() as int);
    let rest_q = bytes.skip(content_bytes(q).len() as int);
    assert(bytes =~= content_bytes(p) + rest_p);
    assert(bytes =~= content_bytes(q) + rest_q);
    lemma_parse_content(p, rest_p);
    lemma_parse_content(q, rest_q);
}

fn put_blob(out: &mut Vec<u8>, data: &[u8])
    ensures
        final(out)@ == old(out)@ + blob_bytes(data@),
        data@.len() <= u64::MAX,
{
    put_u64(out, data.len() as u64);
    put(out, data);
    assert(out@ =~= old(out)@ + blob_bytes(data@));
}

fn put_text(out: &mut Vec<u8>, text: &str)
    ensures
        final(out)@ == old(out)@ + text_bytes(text@),
        encode_utf8(text@).len() <= u64::MAX,
{
    put_blob(out, text.as_bytes());
}

fn put_content(out: &mut Vec<u8>, content: &MessageContent)
    ensures
        final(out)@ == old(out)@ + content_bytes(content@),
        content@.fits(),
{
    let ghost start = out@;
    match content {
        MessageContent::Text(text) => {
            put_u32(out, 0);
            put_text(out, text.as_str());
            assert(out@ =~= start + content_bytes(content@));
        },
        MessageContent::File { name, data } => {
            put_u32(out, 1);
            put_text(out, name.as_str());
            put_blob(out, data.as_slice());
            assert(out@ =~= start + content_bytes(content@));
        },
        MessageContent::Routing(packet) => {
            put_u32(out, 2);
            put_control(out, packet);
            assert(out@ =~= start + content_bytes(content@));
        },
    }
}

/// The wire form of a message content.
pub fn encode_content(content: &MessageContent) -> (bytes: Vec<u8>)
    ensures
        bytes@ == content_bytes(content@),
        content@.fits(),
{
    let mut out: Vec<u8> = Vec::new();
    put_content(&mut out, content);
    assert(out@ =~= content_bytes(content@));
    out
}

fn read_blob(bytes: &[u8], pos: usize) -> (r: Option<(Vec<u8>, usize)>)
    requires
        pos <= bytes@.len(),
    ensures
        match r {
            Some((data, next)) => pos <= next <= bytes@.len() && blob_bytes(data@)
                == bytes@.subrange(pos as int, next as int) && parse_blob(bytes@.skip(pos as int))
                == Some((data@, bytes@.skip(next as int))),
            None => parse_blob(bytes@.skip(pos as int)) is None,
        },
{
    let (count, n1) = match read_u64(bytes, pos) {
        None => {
            return None;
        },
        Some(found) => found,
    };
    if count > (bytes.len() - n1) as u64 {
        return None;
    }
    let end: usize = n1 + count as usize;
    let data = slice_to_vec(slice_subrange(bytes, n1, end));
    proof {
        let b1 = bytes@.skip(n1 as int);
        assert(b1.take(count as int) =~= data@);
        assert(b1.skip(count as int) =~= bytes@.skip(end as int));
        assert(blob_bytes(data@) =~= bytes@.subrange(pos as int, end as int));
    }
    Some((data, end))
}

fn read_text(bytes: &[u8], pos: usize) -> (r: Option<(String, usize)>)
    requires
        pos <= bytes@.len(),
    ensures
        match r {
            Some((text, next)) => pos <= next <= bytes@.len() && text_bytes(text@)
                == bytes@.subrange(pos as int, next as int) && parse_text(bytes@.skip(pos as int))
                == Some((text@, bytes@.skip(next as int))),
            None => parse_text(bytes@.skip(pos as int)) is None,
        },
{
    let (raw, next) = match read_blob(bytes, pos) {
        None => {
            return None;
        },
        Some(found) => found,
    };
    let ghost raw_bytes = raw@;
    match string_from_utf8(raw) {
        None => None,
        Some(text) => {
            proof {
                encode_utf8_decode_utf8(text@);
            }
            Some((text, next))
        },
    }
}

fn read_content(bytes: &[u8], pos: usize) -> (r: Option<(MessageContent, usize)>)
    requires
        pos <= bytes@.len(),
    ensures
        match r {
            Some((content, next)) => pos <= next <= bytes@.len() && content@.fits()
                && content_bytes(content@) == bytes@.subrange(pos as int, next as int)
                && parse_content(bytes@.skip(pos as int)) == Some(
                (content@, bytes@.skip(next as int)),
            ),
            None => parse_content(bytes@.skip(pos as int)) is None,
        },
{
    let (tag, n1) = match read_u32(bytes, pos) {
        None => {
            return None;
        },
        Some(found) => found,
    };
    if tag == 0 {
        let (text, n2) = match read_text(bytes, n1) {
            None => {
                return None;
            },
            Some(found) => found,
        };
        let content = MessageContent::Text(text);
        assert(content_bytes(content@) =~= bytes@.subrange(pos as int, n2 as int));
        Some((content, n2))
    } else if tag == 1 {
        let (name, n2) = match read_text(bytes, n1) {
            None => {
                return None;
            },
            Some(found) => found,
        };
        let (data, n3) = match read_blob(bytes, n2) {
            None => {
                return None;
            },
            Some(found) => found,
        };
        let content = MessageContent::File { name, data };
        assert(content_bytes(content@) =~= bytes@.subrange(pos as int, n3 as int));
        Some((content, n3))
    } else if tag == 2 {
        let (packet, n2) = match read_control(bytes, n1) {
            None => {
                return None;
            },
            Some(found) => found,
        };
        let content = MessageContent::Routing(packet);
        assert(content_bytes(content@) =~= bytes@.subrange(pos as int, n2 as int));
        Some((content, n2))
    } else {
        None
    }
}

/// Reads a message content from the start of `bytes`; what follows it is
/// ignored. The content comes back exactly when `bytes` begin with the wire
/// form of one, and it is that one.
pub fn decode_content(bytes: &[u8]) -> (r: Result<MessageContent, DecodeError>)
    ensures
        r matches Ok(content) ==> content@.fits() && content_bytes(content@).is_prefix_of(bytes@),
        r is Err ==> forall|c: Content|
            c.fits() ==> !(#[trigger] content_bytes(c)).is_prefix_of(bytes@),
{
    proof {
        assert(bytes@.skip(0) =~= bytes@);
    }
    match read_content(bytes, 0) {
        Some((content, next)) => Ok(content),
        None => {
            proof {
                assert forall|c: Content| c.fits() implies !(#[trigger] content_bytes(
                    c,
                )).is_prefix_of(bytes@) by {
                    if content_bytes(c).is_prefix_of(bytes@) {
                        let rest = bytes@.skip(content_bytes(c).len() as int);
                        assert(bytes@ =~= content_bytes(c) + rest);
                        lemma_parse_content(c, rest);
                    }
                }
            }
            Err(DecodeError)
        },
    }
}

/// The wire form of an optional user: one byte 0, or one byte 1 and the
/// user's 32 bytes.
pub open spec fn option_user_bytes(user: Option<UserId>) -> Seq<u8> {
    match user {
        None => seq![0u8],
        Some(user) => seq![1u8] + user@,
    }
}

/// The wire form of a span of time: its whole seconds as eight bytes and
/// its fraction in nanoseconds as four bytes, each low byte first.
pub open spec fn span_bytes(span: Duration) -> Seq<u8> {
    spec_u64_to_le_bytes(span.whole_secs()) + spec_u32_to_le_bytes(span.fraction())
}

/// The wire form of a message: the identifier as a run of sixteen bytes,
/// the sender, the optional recipient, the content, the timestamp as the
/// span since the Unix epoch, the time-to-live, the hop count as one byte,
/// and the signature as a run of bytes.
pub open spec fn envelope_bytes(message: Envelope) -> Seq<u8> {
    blob_bytes(message.id@) + message.sender@ + option_user_bytes(message.recipient)
        + content_bytes(message.content) + span_bytes(message.timestamp.span()) + span_bytes(
        message.ttl,
    ) + seq![message.hop_count] + blob_bytes(message.signature)
}

pub(crate) open spec fn id_of(bytes: Seq<u8>) -> MessageId {
    choose|id: MessageId| id@ == bytes
}

pub(crate) open spec fn parse_id(b: Seq<u8>) -> Option<(MessageId, Seq<u8>)> {
    match parse_blob(b) {
        None => None,
        Some((raw, rest)) => if raw.len() == 16 {
            Some((id_of(raw), rest))
        } else {
            None
        },
    }
}

pub(crate) open spec fn parse_option_user(b: Seq<u8>) -> Option<(Option<UserId>, Seq<u8>)> {
    match parse_u8(b) {
        None => None,
        Some((tag, b1)) => if tag == 0 {
            Some((None, b1))
        } else if tag == 1 {
            match parse_user(b1) {
                None => None,
                Some((user, b2)) => Some((Some(user), b2)),
            }
        } else {
            None
        },
    }
}

pub(crate) open spec fn parse_span(b: Seq<u8>) -> Option<(Duration, Seq<u8>)> {
    match parse_u64(b) {
        None => None,
        Some((secs, b1)) => match parse_u32(b1) {
            None => None,
            Some((nanos, b2)) => if nanos < NANOS_PER_SEC {
                Some((Duration::of_parts(secs, nanos), b2))
            } else {
                None
            },
        },
    }
}

pub(crate) open spec fn parse_envelope(b: Seq<u8>) -> Option<(Envelope, Seq<u8>)> {
    match parse_id(b) {
        None => None,
        Some((id, b1)) => match parse_user(b1) {
            None => None,
            Some((sender, b2)) => match parse_option_user(b2) {
                None => None,
                Some((recipient, b3)) => match parse_content(b3) {
                    None => None,
                    Some((content, b4)) => match parse_span(b4) {
                        None => None,
                        Some((since_epoch, b5)) => match parse_span(b5) {
                            None => None,
                            Some((ttl, b6)) => match parse_u8(b6) {
                                None => None,
                                Some((hop_count, b7)) => match parse_blob(b7) {
                                    None => None,
                                    Some((signature, b8)) => Some(
                                        (
                                            Envelope {
                                                id,
                                                sender,
                                                recipient,
                                                content,
                                                timestamp: Timestamp::at(since_epoch),
                                                ttl,
                                                hop_count,
                                                signature,
                                            },
                                            b8,
                                        ),
                                    ),
                                },
                            },
                        },
                    },
                },
            },
        },
    }
}

pub(crate) proof fn lemma_id_of(id: MessageId)
    ensures
        id@.len() == 16,
        id_of(id@) == id,
{
    MessageId::lemma_view_len(id);
    MessageId::lemma_view_injective(id_of(id@), id);
}

pub(crate) proof fn lemma_parse_id(id: MessageId, rest: Seq<u8>)
    ensures
        parse_id(blob_bytes(id@) + rest) == Some((id, rest)),
{
    lemma_id_of(id);
    lemma_parse_blob(id@, rest);
}

pub(crate) proof fn lemma_parse_option_user(user: Option<UserId>, rest: Seq<u8>)
    ensures
        parse_option_user(option_user_bytes(user) + rest) == Some((user, rest)),
{
    match user {
        None => {
            lemma_parse_u8(0, rest);
        },
        Some(u) => {
            let b1 = u@ + rest;
            assert(option_user_bytes(user) + rest =~= seq![1u8] + b1);
            lemma_parse_u8(1, b1);
            lemma_parse_user(u, rest);
        },
    }
}

pub(crate) proof fn lemma_parse_span(span: Duration, rest: Seq<u8>)
    requires
        span.well_formed(),
    ensures
        parse_span(span_bytes(span) + rest) == Some((span, rest)),
{
    let b1 = spec_u32_to_le_bytes(span.fraction()) + rest;
    assert(span_bytes(span) + rest =~= spec_u64_to_le_bytes(span.whole_secs()) + b1);
    lemma_parse_u64(span.whole_secs(), b1);
    lemma_parse_u32(span.fraction(), rest);
    Duration::lemma_parts(span.whole_secs(), span.fraction());
}

pub(crate) proof fn lemma_parse_envelope(message: Envelope, rest: Seq<u8>)
    requires
        message.fits(),
    ensures
        parse_envelope(envelope_bytes(message) + rest) == Some((message, rest)),
{
    let b7 = blob_bytes(message.signature) + rest;
    let b6 = seq![message.hop_count] + b7;
    let b5 = span_bytes(message.ttl) + b6;
    let b4 = span_bytes(message.timestamp.span()) + b5;
    let b3 = content_bytes(message.content) + b4;
    let b2 = option_user_bytes(message.recipient) + b3;
    let b1 = message.sender@ + b2;
    assert(envelope_bytes(message) + rest =~= blob_bytes(message.id@) + b1);
    lemma_parse_id(message.id, b1);
    lemma_parse_user(message.sender, b2);
    lemma_parse_option_user(message.recipient, b3);
    lemma_parse_content(message.content, b4);
    lemma_parse_span(message.timestamp.span(), b5);
    lemma_parse_span(message.ttl, b6);
    lemma_parse_u8(message.hop_count, b7);
    lemma_parse_blob(message.signature, rest);
    Timestamp::lemma_span(message.timestamp.span());
}

/// Bytes begin with the wire form of at most one message.
pub proof fn lemma_envelope_bytes_prefix_free(p: Envelope, q: Envelope, bytes: Seq<u8>)
    requires
        p.fits(),
        q.fits(),
        envelope_bytes(p).is_prefix_of(bytes),
        envelope_bytes(q).is_prefix_of(bytes),
    ensures
        p == q,
{
    let rest_p = bytes.skip(envelope_bytes(p).len() as int);
    let rest_q = bytes.skip(envelope_bytes(q).len() as int);
    assert(bytes =~= envelope_bytes(p) + rest_p);
    assert(bytes =~= envelope_bytes(q) + rest_q);
    lemma_parse_envelope(p, rest_p);
    lemma_parse_envelope(q, rest_q);
}

fn put_span(out: &mut Vec<u8>, span: &Duration)
    ensures
        final(out)@ == old(out)@ + span_bytes(*span),
        span.well_formed(),
{
    put_u64(out, span.as_secs());
    put_u32(out, span.subsec_nanos());
    assert(out@ =~= old(out)@ + span_bytes(*span));
}

/// The wire form of a message.
pub fn encode_message(message: &Message) -> (bytes: Vec<u8>)
    ensures
        bytes@ == envelope_bytes(message@),
        message@.fits(),
{
    let mut out: Vec<u8> = Vec::new();
    let id = message.id.to_bytes();
    put_blob(&mut out, id.as_slice());
    put_user(&mut out, &message.sender);
    match &message.recipient {
        None => {
            out.push(0);
        },
        Some(user) => {
            out.push(1);
            put_user(&mut out, user);
        },
    }
    let ghost before_content = out@;
    put_content(&mut out, &message.content);
    let since_epoch = message.timestamp.since_unix();
    put_span(&mut out, &since_epoch);
    put_span(&mut out, &message.ttl);
    out.push(message.hop_count);
    put_blob(&mut out, message.signature.as_slice());
    proof {
        assert(before_content =~= blob_bytes(message.id@) + message.sender@ + option_user_bytes(
            message.recipient,
        ));
        assert(out@ =~= envelope_bytes(message@));
    }
    out
}

fn read_id(bytes: &[u8], pos: usize) -> (r: Option<(MessageId, usize)>)
    requires
        pos <= bytes@.len(),
    ensures
        match r {
            Some((id, next)) => pos <= next <= bytes@.len() && blob_bytes(id@) == bytes@.subrange(
                pos as int,
                next as int,
            ) && parse_id(bytes@.skip(pos as int)) == Some((id, bytes@.skip(next as int))),
            None => parse_id(bytes@.skip(pos as int)) is None,
        },
{
    let (raw, next) = match read_blob(bytes, pos) {
        None => {
            return None;
        },
        Some(found) => found,
    };
    if raw.len() != 16 {
        return None;
    }
    let mut a: [u8; 16] = [0u8;16];
    let mut i: usize = 0;
    while i < 16
        invariant
            i <= 16,
            raw@.len() == 16,
            forall|j: int| 0 <= j < i ==> a@[j] == raw@[j],
        decreases 16 - i,
    {
        a[i] = raw[i];
        i += 1;
    }
    let id = MessageId::from_bytes(&a);
    proof {
        assert(id@ =~= raw@);
        lemma_id_of(id);
    }
    Some((id, next))
}

fn read_option_user(bytes: &[u8], pos: usize) -> (r: Option<(Option<UserId>, usize)>)
    requires
        pos <= bytes@.len(),
    ensures
        match r {
            Some((user, next)) => pos <= next <= bytes@.len() && option_user_bytes(user)
                == bytes@.subrange(pos as int, next as int) && parse_option_user(
                bytes@.skip(pos as int),
            ) == Some((user, bytes@.skip(next as int))),
            None => parse_option_user(bytes@.skip(pos as int)) is None,
        },
{
    let (tag, n1) = match read_u8(bytes, pos) {
        None => {
            return None;
        },
        Some(found) => found,
    };
    if tag == 0 {
        Some((None, n1))
    } else if tag == 1 {
        let (user, n2) = match read_user(bytes, n1) {
            None => {
                return None;
            },
            Some(found) => found,
        };
        assert(option_user_bytes(Some(user)) =~= bytes@.subrange(pos as int, n2 as int));
        Some((Some(user), n2))
    } else {
        None
    }
}

fn read_span(bytes: &[u8], pos: usize) -> (r: Option<(Duration, usize)>)
    requires
        pos <= bytes@.len(),
    ensures
        match r {
            Some((span, next)) => pos <= next <= bytes@.len() && span.well_formed() && span_bytes(
                span,
            ) == bytes@.subrange(pos as int, next as int) && parse_span(bytes@.skip(pos as int))
                == Some((span, bytes@.skip(next as int))),
            None => parse_span(bytes@.skip(pos as int)) is None,
        },
{
    let (secs, n1) = match read_u64(bytes, pos) {
        None => {
            return None;
        },
        Some(found) => found,
    };
    let (nanos, n2) = match read_u32(bytes, n1) {
        None => {
            return None;
        },
        Some(found) => found,
    };
    if nanos >= NANOS_PER_SEC {
        return None;
    }
    match Duration::new(secs, nanos) {
        None => None,
        Some(span) => {
            proof {
                Duration::lemma_parts(secs, nanos);
                assert(span_bytes(span) =~= bytes@.subrange(pos as int, n2 as int));
            }
            Some((span, n2))
        },
    }
}

#[verifier::rlimit(40)]
fn read_message(bytes: &[u8], pos: usize) -> (r: Option<(Message, usize)>)
    requires
        pos <= bytes@.len(),
    ensures
        match r {
            Some((message, next)) => pos <= next <= bytes@.len() && message@.fits()
                && envelope_bytes(message@) == bytes@.subrange(pos as int, next as int)
                && parse_envelope(bytes@.skip(pos as int)) == Some(
                (message@, bytes@.skip(next as int)),
            ),
            None => parse_envelope(bytes@.skip(pos as int)) is None,
        },
{
    let (id, n1) = match read_id(bytes, pos) {
        None => {
            return None;
        },
        Some(found) => found,
    };
    let (sender, n2) = match read_user(bytes, n1) {
        None => {
            return None;
        },
        Some(found) => found,
    };
    let (recipient, n3) = match read_option_user(bytes, n2) {
        None => {
            return None;
        },
        Some(found) => found,
    };
    let (content, n4) = match read_content(bytes, n3) {
        None => {
            return None;
        },
        Some(found) => found,
    };
    let (since_epoch, n5) = match read_span(bytes, n4) {
        None => {
            return None;
        },
        Some(found) => found,
    };
    let (ttl, n6) = match read_span(bytes, n5) {
        None => {
            return None;
        },
        Some(found) => found,
    };
    let (hop_count, n7) = match read_u8(bytes, n6) {
        None => {
            return None;
        },
        Some(found) => found,
    };
    let (signature, n8) = match read_blob(bytes, n7) {
        None => {
            return None;
        },
        Some(found) => found,
    };
    let message = Message {
        id,
        sender,
        recipient,
        content,
        timestamp: Timestamp::from_unix(since_epoch),
        ttl,
        hop_count,
        signature,
    };
    proof {
        lemma_joined(
            bytes@,
            seq![pos as int, n1 as int, n2 as int, n3 as int, n4 as int, n5 as int, n6 as int, n7 as int, n8 as int],
        );
    }
    Some((message, n8))
}

/// Eight neighbouring pieces of a run of bytes make up the piece from the
/// start of the first to the end of the last.
proof fn lemma_joined(b: Seq<u8>, cuts: Seq<int>)
    requires
        cuts.len() == 9,
        0 <= cuts[0] <= cuts[1] <= cuts[2] <= cuts[3] <= cuts[4],
        cuts[4] <= cuts[5] <= cuts[6] <= cuts[7] <= cuts[8] <= b.len(),
    ensures
        b.subrange(cuts[0], cuts[1]) + b.subrange(cuts[1], cuts[2]) + b.subrange(cuts[2], cuts[3])
            + b.subrange(cuts[3], cuts[4]) + b.subrange(cuts[4], cuts[5]) + b.subrange(
            cuts[5],
            cuts[6],
        ) + b.subrange(cuts[6], cuts[7]) + b.subrange(cuts[7], cuts[8]) == b.subrange(
            cuts[0],
            cuts[8],
        ),
{
    assert(b.subrange(cuts[0], cuts[1]) + b.subrange(cuts[1], cuts[2]) + b.subrange(
        cuts[2],
        cuts[3],
    ) + b.subrange(cuts[3], cuts[4]) + b.subrange(cuts[4], cuts[5]) + b.subrange(cuts[5], cuts[6])
        + b.subrange(cuts[6], cuts[7]) + b.subrange(cuts[7], cuts[8]) =~= b.subrange(
        cuts[0],
        cuts[8],
    ));
}

/// Reads a message from the start of `bytes`; what follows it is ignored.
/// The message comes back exactly when `bytes` begin with the wire form of
/// one, and it is that one.
pub fn decode_message(bytes: &[u8]) -> (r: Result<Message, DecodeError>)
    ensures
        r matches Ok(message) ==> message@.fits() && envelope_bytes(message@).is_prefix_of(
            bytes@,
        ),
        r is Err ==> forall|m: Envelope|
            m.fits() ==> !(#[trigger] envelope_bytes(m)).is_prefix_of(bytes@),
{
    proof {
        assert(bytes@.skip(0) =~= bytes@);
    }
    match read_message(bytes, 0) {
        Some((message, next)) => Ok(message),
        None => {
            proof {
                assert forall|m: Envelope| m.fits() implies !(#[trigger] envelope_bytes(
                    m,
                )).is_prefix_of(bytes@) by {
                    if envelope_bytes(m).is_prefix_of(bytes@) {
                        let rest = bytes@.skip(envelope_bytes(m).len() as int);
                        assert(bytes@ =~= envelope_bytes(m) + rest);
                        lemma_parse_envelope(m, rest);
                    }
                }
            }
            Err(DecodeError)
        },
    }
}

} // verus!
