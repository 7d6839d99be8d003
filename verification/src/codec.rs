//! Serialization of envelopes into opaque payload bytes.
//!
//! A channel's encrypting worker wraps a whole envelope — remaining
//! onward route, return route and payload — into the plaintext it
//! encrypts, and the peer's decrypting worker recovers the envelope from
//! the decrypted bytes. Layout: each address is its transport-type byte,
//! an eight-byte little-endian length and the name bytes; a route is an
//! eight-byte hop count followed by its addresses; an envelope is its two
//! routes followed by the raw payload.

use vstd::prelude::*;
use crate::routing::{Address, AddressView, Route, TransportMessage, TransportMessageView};
use crate::wire::{
    lemma_u64_le_round_trip, push_u64_le, read_u64_le, u64_from_le, u64_le_bytes,
};

verus! {

/// An address whose name length fits the eight-byte length field.
pub open spec fn wf_addr(a: AddressView) -> bool {
    a.data.len() < 0x1_0000_0000_0000_0000
}

/// A hop sequence whose count and address names fit their fields.
pub open spec fn wf_hops(r: Seq<AddressView>) -> bool {
    &&& r.len() < 0x1_0000_0000_0000_0000
    &&& forall|i: int| 0 <= i < r.len() ==> wf_addr(#[trigger] r[i])
}

/// An envelope both of whose routes are encodable.
pub open spec fn wf_msg(m: TransportMessageView) -> bool {
    wf_hops(m.onward_route) && wf_hops(m.return_route)
}

/// Encoded bytes of one address.
pub open spec fn enc_addr(a: AddressView) -> Seq<u8> {
    seq![a.tt] + u64_le_bytes(a.data.len() as u64) + a.data
}

/// Encoded bytes of a hop sequence, first hop first.
pub open spec fn enc_hops(r: Seq<AddressView>) -> Seq<u8>
    decreases r.len(),
{
    if r.len() == 0 {
        Seq::<u8>::empty()
    } else {
        enc_addr(r[0]) + enc_hops(r.drop_first())
    }
}

/// Encoded bytes of a route: hop count, then the hops.
pub open spec fn enc_route(r: Seq<AddressView>) -> Seq<u8> {
    u64_le_bytes(r.len() as u64) + enc_hops(r)
}

/// Encoded bytes of a whole envelope.
pub open spec fn enc_msg(m: TransportMessageView) -> Seq<u8> {
    enc_route(m.onward_route) + enc_route(m.return_route) + m.payload
}

/// Decodes one address at `pos`: the parsed address and the position
/// just past it, or nothing if the bytes do not carry one.
pub open spec fn dec_addr(b: Seq<u8>, pos: int) -> Option<(AddressView, int)> {
    if 0 <= pos && pos + 9 <= b.len() {
        let n = u64_from_le(b.subrange(pos + 1, pos + 9)) as int;
        if pos + 9 + n <= b.len() {
            Some((AddressView { tt: b[pos], data: b.subrange(pos + 9, pos + 9 + n) }, pos + 9 + n))
        } else {
            None
        }
    } else {
        None
    }
}

/// Decodes `count` consecutive addresses starting at `pos`.
pub open spec fn dec_hops(b: Seq<u8>, pos: int, count: nat) -> Option<(Seq<AddressView>, int)>
    decreases count,
{
    if count == 0 {
        Some((Seq::<AddressView>::empty(), pos))
    } else {
        match dec_addr(b, pos) {
            Some(first) => match dec_hops(b, first.1, (count - 1) as nat) {
                Some(rest) => Some((seq![first.0] + rest.0, rest.1)),
                None => None,
            },
            None => None,
        }
    }
}

/// Decodes a route at `pos`: hop count field, then that many addresses.
pub open spec fn dec_route(b: Seq<u8>, pos: int) -> Option<(Seq<AddressView>, int)> {
    if 0 <= pos && pos + 8 <= b.len() {
        dec_hops(b, pos + 8, u64_from_le(b.subrange(pos, pos + 8)) as nat)
    } else {
        None
    }
}

/// Decodes a whole envelope: two routes, then the rest is the payload.
pub open spec fn dec_msg(b: Seq<u8>) -> Option<TransportMessageView> {
    match dec_route(b, 0) {
        Some(onward) => match dec_route(b, onward.1) {
            Some(ret) => Some(
                TransportMessageView {
                    onward_route: onward.0,
                    return_route: ret.0,
                    payload: b.subrange(ret.1, b.len() as int),
                },
            ),
            None => None,
        },
        None => None,
    }
}

/// Decoding at the position of an encoded address yields that address.
pub proof fn lemma_dec_addr_at(b: Seq<u8>, pos: int, a: AddressView)
    requires
        wf_addr(a),
        0 <= pos,
        pos + enc_addr(a).len() <= b.len(),
        b.subrange(pos, pos + enc_addr(a).len()) == enc_addr(a),
    ensures
        dec_addr(b, pos) == Some((a, pos + enc_addr(a).len())),
{
    let e = enc_addr(a);
    let n = a.data.len() as int;
    assert(e.len() == 9 + n);
    let w = b.subrange(pos, pos + e.len());
    assert(b[pos] == w[0]);
    assert(w[0] == a.tt);
    assert(b.subrange(pos + 1, pos + 9) =~= w.subrange(1, 9));
    assert(w.subrange(1, 9) =~= u64_le_bytes(a.data.len() as u64));
    lemma_u64_le_round_trip(a.data.len() as u64);
    assert(u64_from_le(b.subrange(pos + 1, pos + 9)) as int == n);
    assert(b.subrange(pos + 9, pos + 9 + n) =~= w.subrange(9, 9 + n));
    assert(w.subrange(9, 9 + n) =~= a.data);
    assert(dec_addr(b, pos).unwrap().0 =~= a);
}

/// Decoding at the position of `r.len()` encoded addresses yields `r`.
pub proof fn lemma_dec_hops_at(b: Seq<u8>, pos: int, r: Seq<AddressView>)
    requires
        wf_hops(r),
        0 <= pos,
        pos + enc_hops(r).len() <= b.len(),
        b.subrange(pos, pos + enc_hops(r).len()) == enc_hops(r),
    ensures
        dec_hops(b, pos, r.len()) == Some((r, pos + enc_hops(r).len())),
    decreases r.len(),
{
    if r.len() == 0 {
        assert(dec_hops(b, pos, 0) == Some((Seq::<AddressView>::empty(), pos)));
        assert(r =~= Seq::<AddressView>::empty());
    } else {
        let e0 = enc_addr(r[0]);
        let rest = r.drop_first();
        let erest = enc_hops(rest);
        assert(enc_hops(r) == e0 + erest);
        assert(b.subrange(pos, pos + e0.len()) =~= enc_hops(r).subrange(0, e0.len() as int));
        assert(enc_hops(r).subrange(0, e0.len() as int) =~= e0);
        lemma_dec_addr_at(b, pos, r[0]);
        let p2 = pos + e0.len();
        assert(b.subrange(p2, p2 + erest.len()) =~= enc_hops(r).subrange(
            e0.len() as int,
            enc_hops(r).len() as int,
        ));
        assert(enc_hops(r).subrange(e0.len() as int, enc_hops(r).len() as int) =~= erest);
        assert(forall|i: int| 0 <= i < rest.len() ==> rest[i] == r[i + 1]);
        assert(wf_hops(rest));
        lemma_dec_hops_at(b, p2, rest);
        assert(seq![r[0]] + rest =~= r);
    }
}

/// Decoding at the position of an encoded route yields that route.
pub proof fn lemma_dec_route_at(b: Seq<u8>, pos: int, r: Seq<AddressView>)
    requires
        wf_hops(r),
        0 <= pos,
        pos + enc_route(r).len() <= b.len(),
        b.subrange(pos, pos + enc_route(r).len()) == enc_route(r),
    ensures
        dec_route(b, pos) == Some((r, pos + enc_route(r).len())),
{
    let e = enc_route(r);
    let w = b.subrange(pos, pos + e.len());
    assert(b.subrange(pos, pos + 8) =~= w.subrange(0, 8));
    assert(w.subrange(0, 8) =~= u64_le_bytes(r.len() as u64));
    lemma_u64_le_round_trip(r.len() as u64);
    assert(u64_from_le(b.subrange(pos, pos + 8)) as nat == r.len());
    assert(b.subrange(pos + 8, pos + 8 + enc_hops(r).len()) =~= w.subrange(8, e.len() as int));
    assert(w.subrange(8, e.len() as int) =~= enc_hops(r));
    lemma_dec_hops_at(b, pos + 8, r);
}

/// Round trip: decoding an encoded envelope yields that envelope.
pub proof fn lemma_enc_msg_round_trip(m: TransportMessageView)
    requires
        wf_msg(m),
    ensures
        dec_msg(enc_msg(m)) == Some(m),
{
    let b = enc_msg(m);
    let e1 = enc_route(m.onward_route);
    let e2 = enc_route(m.return_route);
    assert(b.subrange(0, e1.len() as int) =~= e1);
    lemma_dec_route_at(b, 0, m.onward_route);
    let p1 = e1.len() as int;
    assert(b.subrange(p1, p1 + e2.len()) =~= e2);
    lemma_dec_route_at(b, p1, m.return_route);
    let p2 = p1 + e2.len();
    assert(b.subrange(p2, b.len() as int) =~= m.payload);
    assert(dec_msg(b).unwrap() =~= m);
}

/// Appends a copy of `src`'s bytes.
pub fn push_bytes(out: &mut Vec<u8>, src: &Vec<u8>)
    ensures
        final(out)@ == old(out)@ + src@,
{
    let ghost before = out@;
    let mut i: usize = 0;
    while i < src.len()
        invariant
            i <= src@.len(),
            out@ == before + src@.subrange(0, i as int),
        decreases src@.len() - i,
    {
        out.push(src[i]);
        proof {
            assert(before + src@.subrange(0, i as int) + seq![src@[i as int]] =~= before
                + src@.subrange(0, i as int + 1));
        }
        i = i + 1;
    }
    proof {
        assert(before + src@.subrange(0, src@.len() as int) =~= before + src@);
    }
}

/// Appends the encoding of one address.
fn encode_addr(out: &mut Vec<u8>, a: &Address)
    ensures
        final(out)@ == old(out)@ + enc_addr(a@),
        wf_addr(a@),
{
    let ghost before = out@;
    out.push(a.tt);
    push_u64_le(out, a.data.len() as u64);
    push_bytes(out, &a.data);
    proof {
        assert(out@ =~= before + enc_addr(a@));
    }
}

/// Appends the encoding of a route.
fn encode_route(out: &mut Vec<u8>, r: &Route)
    ensures
        final(out)@ == old(out)@ + enc_route(r@),
        wf_hops(r@),
{
    let ghost before = out@;
    push_u64_le(out, r.hops.len() as u64);
    let mut i: usize = 0;
    while i < r.hops.len()
        invariant
            i <= r.hops@.len(),
            r@.len() == r.hops@.len(),
            forall|j: int| 0 <= j < r@.len() ==> r@[j] == r.hops@[j]@,
            out@ == before + u64_le_bytes(r@.len() as u64) + enc_hops(r@.subrange(0, i as int)),
            forall|j: int| 0 <= j < i ==> wf_addr(#[trigger] r@[j]),
        decreases r.hops@.len() - i,
    {
        encode_addr(out, &r.hops[i]);
        proof {
            lemma_enc_hops_snoc(r@.subrange(0, i as int + 1));
            assert(r@.subrange(0, i as int + 1).drop_last() =~= r@.subrange(0, i as int));
            assert(out@ =~= before + u64_le_bytes(r@.len() as u64) + enc_hops(
                r@.subrange(0, i as int + 1),
            ));
        }
        i = i + 1;
    }
    proof {
        assert(r@.subrange(0, r@.len() as int) =~= r@);
    }
}

/// The encoding of a hop sequence ends with its last address.
proof fn lemma_enc_hops_snoc(r: Seq<AddressView>)
    requires
        r.len() > 0,
    ensures
        enc_hops(r) == enc_hops(r.drop_last()) + enc_addr(r.last()),
    decreases r.len(),
{
    if r.len() == 1 {
        assert(r.drop_first() =~= Seq::<AddressView>::empty());
        assert(r.drop_last() =~= Seq::<AddressView>::empty());
        assert(enc_hops(r) =~= enc_addr(r[0]) + enc_hops(r.drop_first()));
        assert(enc_hops(r.drop_last()) + enc_addr(r.last()) =~= enc_addr(r[0]));
        assert(enc_addr(r[0]) + Seq::<u8>::empty() =~= enc_addr(r[0]));
    } else {
        let rest = r.drop_first();
        lemma_enc_hops_snoc(rest);
        assert(rest.drop_last() =~= r.drop_last().drop_first());
        assert(rest.last() == r.last());
        assert(enc_addr(r[0]) + (enc_hops(rest.drop_last()) + enc_addr(r.last())) =~= (enc_addr(
            r.drop_last()[0],
        ) + enc_hops(r.drop_last().drop_first())) + enc_addr(r.last()));
    }
}

/// Serializes an envelope; the encoding decodes back to the same value.
pub fn encode_msg(m: &TransportMessage) -> (r: Vec<u8>)
    ensures
        r@ == enc_msg(m@),
        dec_msg(r@) == Some(m@),
{
    let mut out: Vec<u8> = Vec::new();
    encode_route(&mut out, &m.onward_route);
    encode_route(&mut out, &m.return_route);
    push_bytes(&mut out, &m.payload);
    proof {
        assert(out@ =~= enc_msg(m@));
        lemma_enc_msg_round_trip(m@);
    }
    out
}

/// Parses one address at `pos`, mirroring [`dec_addr`].
fn decode_addr(b: &Vec<u8>, pos: usize) -> (r: Option<(Address, usize)>)
    requires
        pos <= b@.len(),
    ensures
        match r {
            Some(ap) => dec_addr(b@, pos as int) == Some((ap.0@, ap.1 as int)) && pos <= ap.1
                <= b@.len(),
            None => dec_addr(b@, pos as int) is None,
        },
{
    let len: usize = b.len();
    if len - pos < 9 {
        return None;
    }
    let tt = b[pos];
    let n64 = read_u64_le(b, pos + 1);
    let rem: usize = len - (pos + 9);
    if n64 > rem as u64 {
        return None;
    }
    let n = n64 as usize;
    let mut data: Vec<u8> = Vec::new();
    let mut i: usize = 0;
    while i < n
        invariant
            i <= n,
            pos + 9 + n <= b@.len(),
            b@.len() == len,
            data@ == b@.subrange(pos as int + 9, pos as int + 9 + i as int),
        decreases n - i,
    {
        data.push(b[pos + 9 + i]);
        proof {
            assert(b@.subrange(pos as int + 9, pos as int + 9 + i as int) + seq![
                b@[pos as int + 9 + i as int],
            ] =~= b@.subrange(pos as int + 9, pos as int + 9 + i as int + 1));
        }
        i = i + 1;
    }
    let a = Address { tt, data };
    proof {
        assert(dec_addr(b@, pos as int).unwrap().0 =~= a@);
    }
    Some((a, pos + 9 + n))
}

/// Parses a route at `pos`, mirroring [`dec_route`].
fn decode_route(b: &Vec<u8>, pos: usize) -> (r: Option<(Route, usize)>)
    requires
        pos <= b@.len(),
    ensures
        match r {
            Some(rp) => dec_route(b@, pos as int) == Some((rp.0@, rp.1 as int)) && pos <= rp.1
                <= b@.len(),
            None => dec_route(b@, pos as int) is None,
        },
{
    let len: usize = b.len();
    if len - pos < 8 {
        return None;
    }
    let count = read_u64_le(b, pos);
    let ghost start = pos as int + 8;
    let mut hops: Vec<Address> = Vec::new();
    let mut cur: usize = pos + 8;
    let mut i: u64 = 0;
    while i < count
        invariant
            i <= count,
            pos + 8 <= cur <= b@.len(),
            start == pos + 8,
            count == u64_from_le(b@.subrange(pos as int, pos as int + 8)),
            hops@.len() == i,
            dec_hops(b@, start, count as nat) == (match dec_hops(
                b@,
                cur as int,
                (count - i) as nat,
            ) {
                Some(rest) => Some(
                    (hops@.map_values(|a: Address| a@) + rest.0, rest.1),
                ),
                None => None::<(Seq<AddressView>, int)>,
            }),
        decreases count - i,
    {
        let ghost remaining = (count - i) as nat;
        match decode_addr(b, cur) {
            Some(ap) => {
                proof {
                    assert(dec_hops(b@, cur as int, remaining) == (match dec_hops(
                        b@,
                        ap.1 as int,
                        (remaining - 1) as nat,
                    ) {
                        Some(rest) => Some((seq![ap.0@] + rest.0, rest.1)),
                        None => None::<(Seq<AddressView>, int)>,
                    }));
                }
                let ghost hv = hops@.map_values(|a: Address| a@);
                let ghost av = ap.0@;
                hops.push(ap.0);
                cur = ap.1;
                proof {
                    assert(hops@.map_values(|a: Address| a@) =~= hv + seq![av]);
                    if dec_hops(b@, cur as int, (remaining - 1) as nat) is Some {
                        let rest = dec_hops(b@, cur as int, (remaining - 1) as nat).unwrap();
                        assert(hv + (seq![av] + rest.0) =~= (hv + seq![av]) + rest.0);
                    }
                }
            },
            None => {
                proof {
                    assert(dec_hops(b@, cur as int, remaining) is None);
                    assert(dec_hops(b@, start, count as nat) is None);
                    assert(dec_route(b@, pos as int) == dec_hops(b@, start, count as nat));
                }
                return None;
            },
        }
        i = i + 1;
    }
    proof {
        assert(dec_hops(b@, cur as int, 0) == Some((Seq::<AddressView>::empty(), cur as int)));
        assert(hops@.map_values(|a: Address| a@) + Seq::<AddressView>::empty() =~= hops@.map_values(
            |a: Address| a@,
        ));
        assert(dec_route(b@, pos as int) == dec_hops(b@, start, count as nat));
    }
    let r = Route { hops };
    Some((r, cur))
}

/// Parses a whole envelope, mirroring [`dec_msg`].
pub fn decode_msg(b: &Vec<u8>) -> (r: Option<TransportMessage>)
    ensures
        match r {
            Some(m) => dec_msg(b@) == Some(m@),
            None => dec_msg(b@) is None,
        },
{
    let onward = match decode_route(b, 0) {
        Some(x) => x,
        None => {
            return None;
        },
    };
    let ret = match decode_route(b, onward.1) {
        Some(x) => x,
        None => {
            return None;
        },
    };
    let mut payload: Vec<u8> = Vec::new();
    let mut i: usize = ret.1;
    while i < b.len()
        invariant
            ret.1 <= i <= b@.len(),
            payload@ == b@.subrange(ret.1 as int, i as int),
        decreases b@.len() - i,
    {
        payload.push(b[i]);
        proof {
            assert(b@.subrange(ret.1 as int, i as int) + seq![b@[i as int]] =~= b@.subrange(
                ret.1 as int,
                i as int + 1,
            ));
        }
        i = i + 1;
    }
    let m = TransportMessage { onward_route: onward.0, return_route: ret.0, payload };
    proof {
        assert(dec_msg(b@).unwrap() =~= m@);
    }
    Some(m)
}

} // verus!
