use crate::routing_control::{ControlPacket, RoutingControl};
use crate::types::UserId;
use vstd::bytes::{
    lemma_auto_spec_u32_to_from_le_bytes,
    lemma_auto_spec_u64_to_from_le_bytes,
    spec_u32_from_le_bytes,
    spec_u32_to_le_bytes,
    spec_u64_from_le_bytes,
    spec_u64_to_le_bytes,
    u32_from_le_bytes,
    u32_to_le_bytes,
    u64_from_le_bytes,
    u64_to_le_bytes,
};
use vstd::prelude::*;
use vstd::slice::slice_subrange;

verus! {

/// Wire bytes that are malformed or end too early.
#[derive(Debug, Clone, Copy, PartialEq, Eq)]
pub struct DecodeError;

impl DecodeError {
    /// A sentence that describes the error.
    pub fn message(&self) -> (text: String)
        ensures
            text@ == "malformed or truncated wire bytes"@,
    {
        "malformed or truncated wire bytes".to_string()
    }
}

/// The wire form of a list of users: their 32 bytes each, one after another.
pub open spec fn users_bytes(users: Seq<UserId>) -> Seq<u8>
    decreases users.len(),
{
    if users.len() == 0 {
        Seq::empty()
    } else {
        users[0]@ + users_bytes(users.drop_first())
    }
}

/// The wire form of a control packet: the variant's tag as four bytes, low
/// byte first, then the fields in their order. Identifiers are their 32
/// bytes, `request_id` four bytes low byte first, `hop_count` one byte; the
/// unreachable list is its length as eight bytes, low byte first, and then
/// the identifiers.
pub open spec fn control_bytes(packet: ControlPacket) -> Seq<u8> {
    match packet {
        ControlPacket::RouteRequest {
            origin,
            destination,
            request_id,
            hop_count,
        } => spec_u32_to_le_bytes(0) + origin@ + destination@ + spec_u32_to_le_bytes(request_id)
            + seq![hop_count],
        ControlPacket::RouteReply { origin, destination, hop_count } => spec_u32_to_le_bytes(1)
            + origin@ + destination@ + seq![hop_count],
        ControlPacket::RouteError { unreachable } => spec_u32_to_le_bytes(2) + spec_u64_to_le_bytes(
            unreachable.len() as u64,
        ) + users_bytes(unreachable),
    }
}

pub(crate) open spec fn parse_u8(b: Seq<u8>) -> Option<(u8, Seq<u8>)> {
    if b.len() >= 1 {
        Some((b[0], b.skip(1)))
    } else {
        None
    }
}

pub(crate) open spec fn parse_u32(b: Seq<u8>) -> Option<(u32, Seq<u8>)> {
    if b.len() >= 4 {
        Some((spec_u32_from_le_bytes(b.take(4)), b.skip(4)))
    } else {
        None
    }
}

pub(crate) open spec fn parse_u64(b: Seq<u8>) -> Option<(u64, Seq<u8>)> {
    if b.len() >= 8 {
        Some((spec_u64_from_le_bytes(b.take(8)), b.skip(8)))
    } else {
        None
    }
}

pub(crate) open spec fn user_of(bytes: Seq<u8>) -> UserId {
    UserId(choose|a: [u8; 32]| a@ == bytes)
}

pub(crate) open spec fn parse_user(b: Seq<u8>) -> Option<(UserId, Seq<u8>)> {
    if b.len() >= 32 {
        Some((user_of(b.take(32)), b.skip(32)))
    } else {
        None
    }
}

pub(crate) open spec fn parse_users(count: nat, b: Seq<u8>) -> Option<(Seq<UserId>, Seq<u8>)>
    decreases count,
{
    if count == 0 {
        Some((Seq::empty(), b))
    } else {
        match parse_user(b) {
            None => None,
            Some((first, rest)) => match parse_users((count - 1) as nat, rest) {
                None => None,
                Some((others, left)) => Some((seq![first] + others, left)),
            },
        }
    }
}

pub(crate) open spec fn parse_control(b: Seq<u8>) -> Option<(ControlPacket, Seq<u8>)> {
    match parse_u32(b) {
        None => None,
        Some((tag, b1)) => if tag == 0 {
            match parse_user(b1) {
                None => None,
                Some((origin, b2)) => match parse_user(b2) {
                    None => None,
                    Some((destination, b3)) => match parse_u32(b3) {
                        None => None,
                        Some((request_id, b4)) => match parse_u8(b4) {
                            None => None,
                            Some((hop_count, b5)) => Some(
                                (
                                    ControlPacket::RouteRequest {
                                        origin,
                                        destination,
                                        request_id,
                                        hop_count,
                                    },
                                    b5,
                                ),
                            ),
                        },
                    },
                },
            }
        } else if tag == 1 {
            match parse_user(b1) {
                None => None,
                Some((origin, b2)) => match parse_user(b2) {
                    None => None,
                    Some((destination, b3)) => match parse_u8(b3) {
                        None => None,
                        Some((hop_count, b4)) => Some(
                            (ControlPacket::RouteReply { origin, destination, hop_count }, b4),
                        ),
                    },
                },
            }
        } else if tag == 2 {
            match parse_u64(b1) {
                None => None,
                Some((count, b2)) => match parse_users(count as nat, b2) {
                    None => None,
                    Some((unreachable, b3)) => Some(
                        (ControlPacket::RouteError { unreachable }, b3),
                    ),
                },
            }
        } else {
            None
        },
    }
}

pub(crate) proof fn lemma_parse_u8(x: u8, rest: Seq<u8>)
    ensures
        parse_u8(seq![x] + rest) == Some((x, rest)),
{
    assert((seq![x] + rest).skip(1) =~= rest);
}

pub(crate) proof fn lemma_parse_u32(x: u32, rest: Seq<u8>)
    ensures
        spec_u32_to_le_bytes(x).len() == 4,
        parse_u32(spec_u32_to_le_bytes(x) + rest) == Some((x, rest)),
{
    lemma_auto_spec_u32_to_from_le_bytes();
    let b = spec_u32_to_le_bytes(x) + rest;
    assert(b.take(4) =~= spec_u32_to_le_bytes(x));
    assert(b.skip(4) =~= rest);
}

pub(crate) proof fn lemma_parse_u64(x: u64, rest: Seq<u8>)
    ensures
        spec_u64_to_le_bytes(x).len() == 8,
        parse_u64(spec_u64_to_le_bytes(x) + rest) == Some((x, rest)),
{
    lemma_auto_spec_u64_to_from_le_bytes();
    let b = spec_u64_to_le_bytes(x) + rest;
    assert(b.take(8) =~= spec_u64_to_le_bytes(x));
    assert(b.skip(8) =~= rest);
}

pub(crate) proof fn lemma_user_of(user: UserId)
    ensures
        user@.len() == 32,
        user_of(user@) == user,
{
    let a = choose|a: [u8; 32]| a@ == user@;
    assert(user.0@ == user@);
    assert(a@ == user@);
    assert(a =~= user.0);
}

pub(crate) proof fn lemma_parse_user(user: UserId, rest: Seq<u8>)
    ensures
        parse_user(user@ + rest) == Some((user, rest)),
{
    lemma_user_of(user);
    let b = user@ + rest;
    assert(b.take(32) =~= user@);
    assert(b.skip(32) =~= rest);
}

pub(crate) proof fn lemma_parse_users(users: Seq<UserId>, rest: Seq<u8>)
    ensures
        parse_users(users.len(), users_bytes(users) + rest) == Some((users, rest)),
    decreases users.len(),
{
    if users.len() > 0 {
        let first = users[0];
        let others = users.drop_first();
        let tail = users_bytes(others) + rest;
        assert(users_bytes(users) + rest =~= first@ + tail);
        lemma_parse_user(first, tail);
        lemma_parse_users(others, rest);
        assert(seq![first] + others =~= users);
    }
}

/// The wire form of a list grows by the 32 bytes of a user added at its end.
pub proof fn lemma_users_bytes_push(users: Seq<UserId>, user: UserId)
    ensures
        users_bytes(users.push(user)) == users_bytes(users) + user@,
    decreases users.len(),
{
    if users.len() == 0 {
        assert(users.push(user).drop_first() =~= Seq::<UserId>::empty());
        assert(users_bytes(users.push(user).drop_first()) =~= Seq::<u8>::empty());
        assert(users.push(user)[0] == user);
        assert(users_bytes(users.push(user)) =~= users_bytes(users) + user@);
    } else {
        let others = users.drop_first();
        lemma_users_bytes_push(others, user);
        assert(users.push(user).drop_first() =~= others.push(user));
        assert(users.push(user)[0] == users[0]);
        assert(users_bytes(users.push(user)) =~= users_bytes(users) + user@);
    }
}

pub(crate) proof fn lemma_parse_control(packet: ControlPacket, rest: Seq<u8>)
    requires
        packet.fits(),
    ensures
        parse_control(control_bytes(packet) + rest) == Some((packet, rest)),
{
    let b = control_bytes(packet) + rest;
    match packet {
        ControlPacket::RouteRequest { origin, destination, request_id, hop_count } => {
            let b4 = seq![hop_count] + rest;
            let b3 = spec_u32_to_le_bytes(request_id) + b4;
            let b2 = destination@ + b3;
            let b1 = origin@ + b2;
            assert(b =~= spec_u32_to_le_bytes(0) + b1);
            lemma_parse_u32(0, b1);
            lemma_parse_user(origin, b2);
            lemma_parse_user(destination, b3);
            lemma_parse_u32(request_id, b4);
            lemma_parse_u8(hop_count, rest);
        },
        ControlPacket::RouteReply { origin, destination, hop_count } => {
            let b3 = seq![hop_count] + rest;
            let b2 = destination@ + b3;
            let b1 = origin@ + b2;
            assert(b =~= spec_u32_to_le_bytes(1) + b1);
            lemma_parse_u32(1, b1);
            lemma_parse_user(origin, b2);
            lemma_parse_user(destination, b3);
            lemma_parse_u8(hop_count, rest);
        },
        ControlPacket::RouteError { unreachable } => {
            let count = unreachable.len() as u64;
            let b2 = users_bytes(unreachable) + rest;
            let b1 = spec_u64_to_le_bytes(count) + b2;
            assert(b =~= spec_u32_to_le_bytes(2) + b1);
            lemma_parse_u32(2, b1);
            lemma_parse_u64(count, b2);
            lemma_parse_users(unreachable, rest);
        },
    }
}

/// No two control packets share a wire form, nor is the wire form of one
/// the beginning of the wire form of another: bytes begin with the wire
/// form of at most one packet.
pub proof fn lemma_control_bytes_prefix_free(p: ControlPacket, q: ControlPacket, bytes: Seq<u8>)
    requires
        p.fits(),
        q.fits(),
        control_bytes(p).is_prefix_of(bytes),
        control_bytes(q).is_prefix_of(bytes),
    ensures
        p == q,
{
    let rest_p = bytes.skip(control_bytes(p).len() as int);
    let rest_q = bytes.skip(control_bytes(q).len() as int);
    assert(bytes =~= control_bytes(p) + rest_p);
    assert(bytes =~= control_bytes(q) + rest_q);
    lemma_parse_control(p, rest_p);
    lemma_parse_control(q, rest_q);
}

/// Appends the bytes of `src` to `out`.
pub(crate) fn put(out: &mut Vec<u8>, src: &[u8])
    ensures
        final(out)@ == old(out)@ + src@,
{
    let mut i: usize = 0;
    while i < src.len()
        invariant
            i <= src@.len(),
            out@ == old(out)@ + src@.take(i as int),
        decreases src@.len() - i,
    {
        out.push(src[i]);
        assert(out@ =~= old(out)@ + src@.take(i + 1));
        i += 1;
    }
    assert(src@.take(src@.len() as int) =~= src@);
}

pub(crate) fn put_u32(out: &mut Vec<u8>, x: u32)
    ensures
        final(out)@ == old(out)@ + spec_u32_to_le_bytes(x),
{
    let b = u32_to_le_bytes(x);
    put(out, b.as_slice());
}

pub(crate) fn put_u64(out: &mut Vec<u8>, x: u64)
    ensures
        final(out)@ == old(out)@ + spec_u64_to_le_bytes(x),
{
    let b = u64_to_le_bytes(x);
    put(out, b.as_slice());
}

pub(crate) fn put_user(out: &mut Vec<u8>, user: &UserId)
    ensures
        final(out)@ == old(out)@ + user@,
{
    put(out, user.0.as_slice());
}

pub(crate) fn put_control(out: &mut Vec<u8>, packet: &RoutingControl)
    ensures
        final(out)@ == old(out)@ + control_bytes(packet@),
        packet@.fits(),
{
    let ghost start = out@;
    match packet {
        RoutingControl::Rreq { origin, destination, request_id, hop_count } => {
            put_u32(out, 0);
            put_user(out, origin);
            put_user(out, destination);
            put_u32(out, *request_id);
            out.push(*hop_count);
            assert(out@ =~= start + control_bytes(packet@));
        },
        RoutingControl::Rrep { origin, destination, hop_count } => {
            put_u32(out, 1);
            put_user(out, origin);
            put_user(out, destination);
            out.push(*hop_count);
            assert(out@ =~= start + control_bytes(packet@));
        },
        RoutingControl::Rerr { unreachable } => {
            put_u32(out, 2);
            put_u64(out, unreachable.len() as u64);
            let ghost head = out@;
            let mut i: usize = 0;
            while i < unreachable.len()
                invariant
                    i <= unreachable@.len(),
                    out@ == head + users_bytes(unreachable@.take(i as int)),
                decreases unreachable@.len() - i,
            {
                put_user(out, &unreachable[i]);
                proof {
                    lemma_users_bytes_push(unreachable@.take(i as int), unreachable@[i as int]);
                    assert(unreachable@.take(i + 1) =~= unreachable@.take(i as int).push(
                        unreachable@[i as int],
                    ));
                    assert(out@ =~= head + users_bytes(unreachable@.take(i + 1)));
                }
                i += 1;
            }
            assert(unreachable@.take(unreachable@.len() as int) =~= unreachable@);
            assert(out@ =~= start + control_bytes(packet@));
        },
    }
}

/// The wire form of a control packet.
pub fn encode_control(packet: &RoutingControl) -> (bytes: Vec<u8>)
    ensures
        bytes@ == control_bytes(packet@),
        packet@.fits(),
{
    let mut out: Vec<u8> = Vec::new();
    put_control(&mut out, packet);
    assert(out@ =~= control_bytes(packet@));
    out
}

pub(crate) fn read_u8(bytes: &[u8], pos: usize) -> (r: Option<(u8, usize)>)
    requires
        pos <= bytes@.len(),
    ensures
        match r {
            Some((x, next)) => next == pos + 1 && next <= bytes@.len() && seq![x]
                == bytes@.subrange(pos as int, next as int) && parse_u8(bytes@.skip(pos as int))
                == Some((x, bytes@.skip(next as int))),
            None => parse_u8(bytes@.skip(pos as int)) is None,
        },
{
    if bytes.len() - pos < 1 {
        None
    } else {
        let x = bytes[pos];
        proof {
            assert(seq![x] =~= bytes@.subrange(pos as int, pos + 1));
            assert(bytes@.skip(pos as int).skip(1) =~= bytes@.skip(pos + 1));
        }
        Some((x, pos + 1))
    }
}

pub(crate) fn read_u32(bytes: &[u8], pos: usize) -> (r: Option<(u32, usize)>)
    requires
        pos <= bytes@.len(),
    ensures
        match r {
            Some((x, next)) => next == pos + 4 && next <= bytes@.len() && spec_u32_to_le_bytes(x)
                == bytes@.subrange(pos as int, next as int) && parse_u32(bytes@.skip(pos as int))
                == Some((x, bytes@.skip(next as int))),
            None => parse_u32(bytes@.skip(pos as int)) is None,
        },
{
    if bytes.len() - pos < 4 {
        None
    } else {
        let x = u32_from_le_bytes(slice_subrange(bytes, pos, pos + 4));
        proof {
            lemma_auto_spec_u32_to_from_le_bytes();
            assert(bytes@.skip(pos as int).take(4) =~= bytes@.subrange(pos as int, pos + 4));
            assert(bytes@.skip(pos as int).skip(4) =~= bytes@.skip(pos + 4));
        }
        Some((x, pos + 4))
    }
}

pub(crate) fn read_u64(bytes: &[u8], pos: usize) -> (r: Option<(u64, usize)>)
    requires
        pos <= bytes@.len(),
    ensures
        match r {
            Some((x, next)) => next == pos + 8 && next <= bytes@.len() && spec_u64_to_le_bytes(x)
                == bytes@.subrange(pos as int, next as int) && parse_u64(bytes@.skip(pos as int))
                == Some((x, bytes@.skip(next as int))),
            None => parse_u64(bytes@.skip(pos as int)) is None,
        },
{
    if bytes.len() - pos < 8 {
        None
    } else {
        let x = u64_from_le_bytes(slice_subrange(bytes, pos, pos + 8));
        proof {
            lemma_auto_spec_u64_to_from_le_bytes();
            assert(bytes@.skip(pos as int).take(8) =~= bytes@.subrange(pos as int, pos + 8));
            assert(bytes@.skip(pos as int).skip(8) =~= bytes@.skip(pos + 8));
        }
        Some((x, pos + 8))
    }
}

pub(crate) fn read_user(bytes: &[u8], pos: usize) -> (r: Option<(UserId, usize)>)
    requires
        pos <= bytes@.len(),
    ensures
        match r {
            Some((user, next)) => next == pos + 32 && next <= bytes@.len() && user@
                == bytes@.subrange(pos as int, next as int) && parse_user(bytes@.skip(pos as int))
                == Some((user, bytes@.skip(next as int))),
            None => parse_user(bytes@.skip(pos as int)) is None,
        },
{
    if bytes.len() - pos < 32 {
        None
    } else {
        let mut a: [u8; 32] = [0u8;32];
        let mut i: usize = 0;
        while i < 32
            invariant
                i <= 32,
                pos + 32 <= bytes@.len() <= usize::MAX,
                forall|j: int| 0 <= j < i ==> a@[j] == bytes@[pos + j],
            decreases 32 - i,
        {
            a[i] = bytes[pos + i];
            i += 1;
        }
        let user = UserId(a);
        proof {
            assert(user@ =~= bytes@.subrange(pos as int, pos + 32));
            assert(bytes@.skip(pos as int).take(32) =~= user@);
            assert(bytes@.skip(pos as int).skip(32) =~= bytes@.skip(pos + 32));
            lemma_user_of(user);
        }
        Some((user, pos + 32))
    }
}

pub(crate) open spec fn after(
    read: Seq<UserId>,
    r: Option<(Seq<UserId>, Seq<u8>)>,
) -> Option<(Seq<UserId>, Seq<u8>)> {
    match r {
        None => None,
        Some((others, left)) => Some((read + others, left)),
    }
}

pub(crate) fn read_users(bytes: &[u8], pos: usize, count: u64) -> (r: Option<(Vec<UserId>, usize)>)
    requires
        pos <= bytes@.len(),
    ensures
        match r {
            Some((users, next)) => pos <= next <= bytes@.len() && users@.len() == count
                && users_bytes(users@) == bytes@.subrange(pos as int, next as int) && parse_users(
                count as nat,
                bytes@.skip(pos as int),
            ) == Some((users@, bytes@.skip(next as int))),
            None => parse_users(count as nat, bytes@.skip(pos as int)) is None,
        },
{
    let mut users: Vec<UserId> = Vec::new();
    let mut cur: usize = pos;
    let mut i: u64 = 0;
    proof {
        assert(bytes@.subrange(pos as int, pos as int) =~= Seq::<u8>::empty());
        let whole = parse_users(count as nat, bytes@.skip(pos as int));
        assert(after(users@, whole) == whole) by {
            if whole is Some {
                assert(users@ + whole.unwrap().0 =~= whole.unwrap().0);
            }
        }
    }
    while i < count
        invariant
            i <= count,
            pos <= cur <= bytes@.len(),
            users@.len() == i,
            users_bytes(users@) == bytes@.subrange(pos as int, cur as int),
            parse_users(count as nat, bytes@.skip(pos as int)) == after(
                users@,
                parse_users((count - i) as nat, bytes@.skip(cur as int)),
            ),
        decreases count - i,
    {
        let ghost read = users@;
        let ghost here = bytes@.skip(cur as int);
        match read_user(bytes, cur) {
            None => {
                return None;
            },
            Some((user, next)) => {
                users.push(user);
                proof {
                    lemma_users_bytes_push(read, user);
                    assert(users_bytes(users@) =~= bytes@.subrange(pos as int, next as int));
                    let rest = parse_users((count - i - 1) as nat, bytes@.skip(next as int));
                    assert(parse_users((count - i) as nat, here) == after(seq![user], rest));
                    assert(after(read, after(seq![user], rest)) == after(users@, rest)) by {
                        if rest is Some {
                            assert(read + (seq![user] + rest.unwrap().0) =~= users@ + rest.unwrap().0);
                        }
                    }
                }
                cur = next;
                i += 1;
            },
        }
    }
    proof {
        assert(users@ + Seq::<UserId>::empty() =~= users@);
    }
    Some((users, cur))
}

pub(crate) fn read_control(bytes: &[u8], pos: usize) -> (r: Option<(RoutingControl, usize)>)
    requires
        pos <= bytes@.len(),
    ensures
        match r {
            Some((packet, next)) => pos <= next <= bytes@.len() && packet@.fits() && control_bytes(
                packet@,
            ) == bytes@.subrange(pos as int, next as int) && parse_control(bytes@.skip(pos as int))
                == Some((packet@, bytes@.skip(next as int))),
            None => parse_control(bytes@.skip(pos as int)) is None,
        },
{
    let (tag, n1) = match read_u32(bytes, pos) {
        None => {
            return None;
        },
        Some(found) => found,
    };
    if tag == 0 {
        let (origin, n2) = match read_user(bytes, n1) {
            None => {
                return None;
            },
            Some(found) => found,
        };
        let (destination, n3) = match read_user(bytes, n2) {
            None => {
                return None;
            },
            Some(found) => found,
        };
        let (request_id, n4) = match read_u32(bytes, n3) {
            None => {
                return None;
            },
            Some(found) => found,
        };
        let (hop_count, n5) = match read_u8(bytes, n4) {
            None => {
                return None;
            },
            Some(found) => found,
        };
        let packet = RoutingControl::Rreq { origin, destination, request_id, hop_count };
        assert(control_bytes(packet@) =~= bytes@.subrange(pos as int, n5 as int));
        Some((packet, n5))
    } else if tag == 1 {
        let (origin, n2) = match read_user(bytes, n1) {
            None => {
                return None;
            },
            Some(found) => found,
        };
        let (destination, n3) = match read_user(bytes, n2) {
            None => {
                return None;
            },
            Some(found) => found,
        };
        let (hop_count, n4) = match read_u8(bytes, n3) {
            None => {
                return None;
            },
            Some(found) => found,
        };
        let packet = RoutingControl::Rrep { origin, destination, hop_count };
        assert(control_bytes(packet@) =~= bytes@.subrange(pos as int, n4 as int));
        Some((packet, n4))
    } else if tag == 2 {
        let (count, n2) = match read_u64(bytes, n1) {
            None => {
                return None;
            },
            Some(found) => found,
        };
        let (unreachable, n3) = match read_users(bytes, n2, count) {
            None => {
                return None;
            },
            Some(found) => found,
        };
        let packet = RoutingControl::Rerr { unreachable };
        assert(control_bytes(packet@) =~= bytes@.subrange(pos as int, n3 as int));
        Some((packet, n3))
    } else {
        None
    }
}

/// Reads a control packet from the start of `bytes`; what follows the
/// packet is ignored. The packet comes back exactly when `bytes` begin with
/// the wire form of one, and it is that one.
pub fn decode_control(bytes: &[u8]) -> (r: Result<RoutingControl, DecodeError>)
    ensures
        r matches Ok(packet) ==> packet@.fits() && control_bytes(packet@).is_prefix_of(bytes@),
        r is Err ==> forall|p: ControlPacket|
            p.fits() ==> !(#[trigger] control_bytes(p)).is_prefix_of(bytes@),
{
    proof {
        assert(bytes@.skip(0) =~= bytes@);
    }
    match read_control(bytes, 0) {
        Some((packet, next)) => Ok(packet),
        None => {
            proof {
                assert forall|p: ControlPacket| p.fits() implies !(#[trigger] control_bytes(
                    p,
                )).is_prefix_of(bytes@) by {
                    if control_bytes(p).is_prefix_of(bytes@) {
                        let rest = bytes@.skip(control_bytes(p).len() as int);
                        assert(bytes@ =~= control_bytes(p) + rest);
                        lemma_parse_control(p, rest);
                    }
                }
            }
            Err(DecodeError)
        },
    }
}

/// Writing a packet and reading it back gives the packet: bytes that begin
/// with the wire form of `packet` begin with the wire form of no other.
pub proof fn lemma_control_round_trip(packet: ControlPacket, rest: Seq<u8>)
    requires
        packet.fits(),
    ensures
        control_bytes(packet).is_prefix_of(control_bytes(packet) + rest),
        forall|q: ControlPacket|
            q.fits() && (#[trigger] control_bytes(q)).is_prefix_of(control_bytes(packet) + rest)
                ==> q == packet,
{
    let bytes = control_bytes(packet) + rest;
    assert(control_bytes(packet).is_prefix_of(bytes));
    assert forall|q: ControlPacket|
        q.fits() && (#[trigger] control_bytes(q)).is_prefix_of(bytes) implies q == packet by {
        lemma_control_bytes_prefix_free(q, packet, bytes);
    }
}

} // verus!
