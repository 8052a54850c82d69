//! Wire codec for discovery announcements.
//!
//! The wire layout is fixed-field: magic tag, version byte, 128-bit device
//! id, length-prefixed UTF-8 name, port, retransmit flag, and a
//! count-prefixed list of addresses, each tagged with a family byte. Decoding
//! is all-or-nothing: any input that is not exactly an encoding of a valid
//! packet is rejected with a specific error.

use vstd::prelude::*;

verus! {

/// Protocol version accepted by this codec.
pub const WIRE_VERSION: u8 = 1;

/// Longest device name, in bytes, a packet may carry.
pub const MAX_NAME_LEN: usize = 255;

/// Most addresses a packet may carry.
pub const MAX_ADDRS: usize = 16;

/// The four magic bytes that open every datagram of this protocol.
pub open spec fn spec_magic() -> Seq<u8> {
    seq![0x53u8, 0x53u8, 0x59u8, 0x4eu8]
}

/// One IP address of a peer: four octets for IPv4, sixteen for IPv6.
pub struct PeerAddr {
    pub octets: Vec<u8>,
}

impl View for PeerAddr {
    type V = Seq<u8>;

    open spec fn view(&self) -> Seq<u8> {
        self.octets@
    }
}

/// An address is well formed when it is exactly an IPv4 or an IPv6 payload.
pub open spec fn valid_addr(a: Seq<u8>) -> bool {
    a.len() == 4 || a.len() == 16
}

/// Family byte written on the wire for an address: 6 for IPv6, 4 for IPv4.
pub open spec fn family_byte(a: Seq<u8>) -> u8 {
    if a.len() == 16 {
        6u8
    } else {
        4u8
    }
}

impl PeerAddr {
    /// Accepts a byte vector as an address only at the two legal lengths.
    pub fn from_octets(octets: Vec<u8>) -> (r: Option<PeerAddr>)
        ensures
            match r {
                Some(a) => a@ == octets@ && valid_addr(a@),
                None => !valid_addr(octets@),
            },
    {
        if octets.len() == 4 || octets.len() == 16 {
            Some(PeerAddr { octets })
        } else {
            None
        }
    }

    /// True when this address is an IPv6 address.
    pub fn is_v6(&self) -> (r: bool)
        ensures
            r == (self@.len() == 16),
    {
        self.octets.len() == 16
    }

    /// A copy with the same octets.
    pub fn duplicate(&self) -> (r: PeerAddr)
        ensures
            r@ == self@,
    {
        PeerAddr { octets: copy_bytes(&self.octets) }
    }
}

/// Mathematical model of an announcement packet.
#[verifier::ext_equal]
pub ghost struct PacketModel {
    pub device_id: Seq<u8>,
    pub device_name: Seq<u8>,
    pub retransmit: bool,
    pub port: u16,
    pub addresses: Seq<Seq<u8>>,
}

/// The wire entity: one announcement, constructed fresh per send or receive.
pub struct AnnouncePacket {
    /// The sender's 128-bit identity, as sixteen bytes.
    pub device_id: Vec<u8>,
    /// The sender's display name, as UTF-8 bytes.
    pub device_name: Vec<u8>,
    /// Request that receivers re-announce themselves immediately.
    pub retransmit: bool,
    /// Application port the sender listens on for follow-up traffic.
    pub port: u16,
    /// The sender's own reachable addresses, in the order it announced them.
    pub addresses: Vec<PeerAddr>,
}

impl View for AnnouncePacket {
    type V = PacketModel;

    open spec fn view(&self) -> PacketModel {
        PacketModel {
            device_id: self.device_id@,
            device_name: self.device_name@,
            retransmit: self.retransmit,
            port: self.port,
            addresses: self.addresses@.map_values(|a: PeerAddr| a@),
        }
    }
}

/// A packet within the size limits of the wire format.
pub open spec fn wf_packet(m: PacketModel) -> bool {
    &&& m.device_id.len() == 16
    &&& m.device_name.len() <= MAX_NAME_LEN
    &&& m.addresses.len() <= MAX_ADDRS
    &&& forall|i: int| 0 <= i < m.addresses.len() ==> valid_addr(#[trigger] m.addresses[i])
}

/// Why a datagram was rejected by `decode`.
#[derive(Clone, Copy, PartialEq, Eq, Structural, Debug)]
pub enum DecodeError {
    /// The datagram does not open with this protocol's magic bytes.
    BadMagic,
    /// The version byte names a protocol version this codec does not speak.
    UnsupportedVersion,
    /// The datagram is shorter than its declared lengths demand.
    Truncated,
    /// A declared length exceeds the configured maxima, a flag or family
    /// byte holds an impossible value, or bytes trail the last field.
    Malformed,
}

/// High byte of a big-endian 16-bit field.
pub open spec fn u16_hi(x: u16) -> u8 {
    (x / 256) as u8
}

/// Low byte of a big-endian 16-bit field.
pub open spec fn u16_lo(x: u16) -> u8 {
    (x % 256) as u8
}

/// Wire bytes of an address list: family byte then payload, per address.
pub open spec fn spec_encode_addrs(addrs: Seq<Seq<u8>>) -> Seq<u8>
    decreases addrs.len(),
{
    if addrs.len() == 0 {
        Seq::empty()
    } else {
        seq![family_byte(addrs[0])] + addrs[0] + spec_encode_addrs(addrs.drop_first())
    }
}

/// Wire bytes of a whole packet.
pub open spec fn spec_encode(m: PacketModel) -> Seq<u8> {
    spec_magic() + seq![WIRE_VERSION] + m.device_id
        + seq![u16_hi(m.device_name.len() as u16), u16_lo(m.device_name.len() as u16)]
        + m.device_name + seq![u16_hi(m.port), u16_lo(m.port)]
        + seq![(if m.retransmit { 1u8 } else { 0u8 })] + seq![m.addresses.len() as u8]
        + spec_encode_addrs(m.addresses)
}

/// Copies a byte vector.
pub(crate) fn copy_bytes(src: &Vec<u8>) -> (r: Vec<u8>)
    ensures
        r@ == src@,
{
    let mut r: Vec<u8> = Vec::new();
    let mut i: usize = 0;
    while i < src.len()
        invariant
            i <= src.len(),
            r@ == src@.take(i as int),
        decreases src.len() - i,
    {
        r.push(src[i]);
        assert(src@.take(i as int).push(src@[i as int]) =~= src@.take(i as int + 1));
        i += 1;
    }
    assert(src@.take(src.len() as int) =~= src@);
    r
}

/// Appends all of `src` to `out`.
fn push_bytes(out: &mut Vec<u8>, src: &Vec<u8>)
    ensures
        final(out)@ == old(out)@ + src@,
{
    let ghost base = out@;
    let mut i: usize = 0;
    while i < src.len()
        invariant
            i <= src.len(),
            out@ == base + src@.take(i as int),
        decreases src.len() - i,
    {
        out.push(src[i]);
        assert(base + src@.take(i as int) + seq![src@[i as int]] =~= base + src@.take(
            i as int + 1,
        ));
        i += 1;
    }
    assert(base + src@.take(src.len() as int) =~= base + src@);
}

/// `spec_encode_addrs` distributes over appending one address at the end.
pub proof fn lemma_encode_addrs_push(addrs: Seq<Seq<u8>>, a: Seq<u8>)
    ensures
        spec_encode_addrs(addrs.push(a)) == spec_encode_addrs(addrs) + seq![family_byte(a)] + a,
    decreases addrs.len(),
{
    assert(addrs.push(a)[0] == (if addrs.len() == 0 {
        a
    } else {
        addrs[0]
    }));
    if addrs.len() == 0 {
        assert(addrs.push(a).drop_first() =~= Seq::<Seq<u8>>::empty());
        assert(spec_encode_addrs(addrs.push(a).drop_first()) == Seq::<u8>::empty());
        assert(spec_encode_addrs(addrs) == Seq::<u8>::empty());
        assert(spec_encode_addrs(addrs.push(a)) =~= spec_encode_addrs(addrs) + seq![
            family_byte(a),
        ] + a);
    } else {
        assert(addrs.push(a).drop_first() =~= addrs.drop_first().push(a));
        lemma_encode_addrs_push(addrs.drop_first(), a);
        assert(spec_encode_addrs(addrs.push(a)) =~= spec_encode_addrs(addrs) + seq![
            family_byte(a),
        ] + a);
    }
}

/// Encodes a packet to its wire bytes. Encoding is deterministic: the bytes
/// are a function of the packet value alone.
pub fn encode(p: &AnnouncePacket) -> (r: Vec<u8>)
    requires
        wf_packet(p@),
    ensures
        r@ == spec_encode(p@),
{
    let mut out: Vec<u8> = Vec::new();
    out.push(0x53);
    out.push(0x53);
    out.push(0x59);
    out.push(0x4e);
    out.push(WIRE_VERSION);
    assert(out@ =~= spec_magic() + seq![WIRE_VERSION]);
    push_bytes(&mut out, &p.device_id);
    let nlen: usize = p.device_name.len();
    out.push((nlen / 256) as u8);
    out.push((nlen % 256) as u8);
    assert((nlen / 256) as u8 == u16_hi(nlen as u16) && (nlen % 256) as u8 == u16_lo(
        nlen as u16,
    )) by {
        assert(nlen < 65536);
    }
    push_bytes(&mut out, &p.device_name);
    out.push((p.port / 256) as u8);
    out.push((p.port % 256) as u8);
    if p.retransmit {
        out.push(1);
    } else {
        out.push(0);
    }
    out.push(p.addresses.len() as u8);
    let ghost header = spec_magic() + seq![WIRE_VERSION] + p@.device_id + seq![
        u16_hi(p@.device_name.len() as u16),
        u16_lo(p@.device_name.len() as u16),
    ] + p@.device_name + seq![u16_hi(p@.port), u16_lo(p@.port)] + seq![
        (if p@.retransmit {
            1u8
        } else {
            0u8
        }),
    ] + seq![p@.addresses.len() as u8];
    assert(out@ =~= header);
    let mut i: usize = 0;
    while i < p.addresses.len()
        invariant
            i <= p.addresses.len(),
            p@.addresses == p.addresses@.map_values(|a: PeerAddr| a@),
            p@.addresses.len() == p.addresses@.len(),
            out@ == header + spec_encode_addrs(p@.addresses.take(i as int)),
            forall|j: int| 0 <= j < p@.addresses.len() ==> valid_addr(#[trigger] p@.addresses[j]),
        decreases p.addresses.len() - i,
    {
        let a = &p.addresses[i];
        assert(p@.addresses[i as int] == a@);
        if a.octets.len() == 16 {
            out.push(6);
        } else {
            out.push(4);
        }
        push_bytes(&mut out, &a.octets);
        proof {
            lemma_encode_addrs_push(p@.addresses.take(i as int), a@);
            assert(p@.addresses.take(i as int).push(a@) =~= p@.addresses.take(i as int + 1));
            assert(header + spec_encode_addrs(p@.addresses.take(i as int)) + seq![family_byte(a@)]
                + a@ =~= header + spec_encode_addrs(p@.addresses.take(i as int + 1)));
        }
        i += 1;
    }
    proof {
        assert(p@.addresses.take(p@.addresses.len() as int) =~= p@.addresses);
        assert(header + spec_encode_addrs(p@.addresses) =~= spec_encode(p@));
    }
    out
}

/// Spec-level parse of an address list: `count` addresses starting at `pos`.
/// On success yields the addresses and the position just past them.
pub open spec fn spec_decode_addrs(b: Seq<u8>, pos: int, count: int) -> Result<
    (Seq<Seq<u8>>, int),
    DecodeError,
>
    decreases count,
{
    if count <= 0 {
        Ok((Seq::empty(), pos))
    } else if pos + 1 > b.len() {
        Err(DecodeError::Truncated)
    } else if b[pos] != 4 && b[pos] != 6 {
        Err(DecodeError::Malformed)
    } else {
        let alen: int = if b[pos] == 6 {
            16
        } else {
            4
        };
        if pos + 1 + alen > b.len() {
            Err(DecodeError::Truncated)
        } else {
            let a = b.subrange(pos + 1, pos + 1 + alen);
            match spec_decode_addrs(b, pos + 1 + alen, count - 1) {
                Ok(rest) => Ok((seq![a] + rest.0, rest.1)),
                Err(e) => Err(e),
            }
        }
    }
}

/// Spec-level parse of a whole datagram. `decode` returns exactly this.
pub open spec fn spec_decode(b: Seq<u8>) -> Result<PacketModel, DecodeError> {
    if b.len() < 4 {
        Err(DecodeError::Truncated)
    } else if b.subrange(0, 4) != spec_magic() {
        Err(DecodeError::BadMagic)
    } else if b.len() < 5 {
        Err(DecodeError::Truncated)
    } else if b[4] != WIRE_VERSION {
        Err(DecodeError::UnsupportedVersion)
    } else if b.len() < 23 {
        Err(DecodeError::Truncated)
    } else {
        let nlen: int = b[21] * 256 + b[22];
        if nlen > MAX_NAME_LEN {
            Err(DecodeError::Malformed)
        } else if b.len() < 23 + nlen {
            Err(DecodeError::Truncated)
        } else {
            let p: int = 23 + nlen;
            if b.len() < p + 4 {
                Err(DecodeError::Truncated)
            } else if b[p + 2] != 0 && b[p + 2] != 1 {
                Err(DecodeError::Malformed)
            } else if b[p + 3] > MAX_ADDRS {
                Err(DecodeError::Malformed)
            } else {
                match spec_decode_addrs(b, p + 4, b[p + 3] as int) {
                    Ok(rest) => if rest.1 != b.len() {
                        Err(DecodeError::Malformed)
                    } else {
                        Ok(
                            PacketModel {
                                device_id: b.subrange(5, 21),
                                device_name: b.subrange(23, 23 + nlen),
                                retransmit: b[p + 2] == 1,
                                port: (b[p] * 256 + b[p + 1]) as u16,
                                addresses: rest.0,
                            },
                        )
                    },
                    Err(e) => Err(e),
                }
            }
        }
    }
}

/// Decodes a datagram, all or nothing: the result is exactly what
/// `spec_decode` says of the bytes, and an accepted packet is well formed.
#[verifier::loop_isolation(false)]
pub fn decode(b: &Vec<u8>) -> (r: Result<AnnouncePacket, DecodeError>)
    ensures
        match r {
            Ok(p) => spec_decode(b@) == Result::<PacketModel, DecodeError>::Ok(p@) && wf_packet(
                p@,
            ),
            Err(e) => spec_decode(b@) == Result::<PacketModel, DecodeError>::Err(e),
        },
{
    if b.len() < 4 {
        return Err(DecodeError::Truncated);
    }
    if !(b[0] == 0x53 && b[1] == 0x53 && b[2] == 0x59 && b[3] == 0x4e) {
        assert(b@.subrange(0, 4) != spec_magic()) by {
            assert(b@.subrange(0, 4)[0] == b@[0] && b@.subrange(0, 4)[1] == b@[1] && b@.subrange(
                0,
                4,
            )[2] == b@[2] && b@.subrange(0, 4)[3] == b@[3]);
        }
        return Err(DecodeError::BadMagic);
    }
    assert(b@.subrange(0, 4) =~= spec_magic());
    if b.len() < 5 {
        return Err(DecodeError::Truncated);
    }
    if b[4] != WIRE_VERSION {
        return Err(DecodeError::UnsupportedVersion);
    }
    if b.len() < 23 {
        return Err(DecodeError::Truncated);
    }
    let nlen: usize = (b[21] as usize) * 256 + (b[22] as usize);
    if nlen > MAX_NAME_LEN {
        return Err(DecodeError::Malformed);
    }
    if b.len() < 23 + nlen {
        return Err(DecodeError::Truncated);
    }
    let device_id = copy_range(b, 5, 16);
    let device_name = copy_range(b, 23, nlen);
    let p: usize = 23 + nlen;
    if b.len() < p + 4 {
        return Err(DecodeError::Truncated);
    }
    let port: u16 = (b[p] as u16) * 256 + (b[p + 1] as u16);
    assert(port == (b@[p as int] * 256 + b@[p as int + 1]) as u16);
    let rt: u8 = b[p + 2];
    if rt != 0 && rt != 1 {
        return Err(DecodeError::Malformed);
    }
    let count: usize = b[p + 3] as usize;
    if count > MAX_ADDRS {
        return Err(DecodeError::Malformed);
    }
    let mut addrs: Vec<PeerAddr> = Vec::new();
    let mut pos: usize = p + 4;
    let mut k: usize = 0;
    let ghost start: int = p as int + 4;
    while k < count
        invariant
            k <= count,
            count <= MAX_ADDRS,
            start <= pos <= b.len(),
            addrs@.len() == k,
            forall|j: int| 0 <= j < k ==> valid_addr((#[trigger] addrs@[j])@),
            spec_decode_addrs(b@, start, count as int) == (match spec_decode_addrs(
                b@,
                pos as int,
                count - k,
            ) {
                Ok(rest) => Result::<(Seq<Seq<u8>>, int), DecodeError>::Ok(
                    (addrs@.map_values(|a: PeerAddr| a@) + rest.0, rest.1),
                ),
                Err(e) => Result::<(Seq<Seq<u8>>, int), DecodeError>::Err(e),
            }),
        decreases count - k,
    {
        let ghost decoded = addrs@.map_values(|a: PeerAddr| a@);
        if pos >= b.len() {
            assert(spec_decode_addrs(b@, pos as int, count - k) == Result::<
                (Seq<Seq<u8>>, int),
                DecodeError,
            >::Err(DecodeError::Truncated));
            return Err(DecodeError::Truncated);
        }
        let fam: u8 = b[pos];
        if fam != 4 && fam != 6 {
            return Err(DecodeError::Malformed);
        }
        let alen: usize = if fam == 6 {
            16
        } else {
            4
        };
        if b.len() - (pos + 1) < alen {
            assert(pos as int + 1 + alen as int > b@.len());
            return Err(DecodeError::Truncated);
        }
        let octets = copy_range(b, pos + 1, alen);
        let a = PeerAddr { octets };
        let ghost av = a@;
        addrs.push(a);
        proof {
            assert(addrs@.map_values(|x: PeerAddr| x@) =~= decoded.push(av));
            assert(decoded + (seq![av] + spec_decode_addrs(b@, pos as int + 1 + alen as int, count
                - k - 1)->Ok_0.0) =~= decoded.push(av) + spec_decode_addrs(
                b@,
                pos as int + 1 + alen as int,
                count - k - 1,
            )->Ok_0.0);
        }
        pos = pos + 1 + alen;
        k = k + 1;
    }
    assert(spec_decode_addrs(b@, pos as int, 0) == Result::<(Seq<Seq<u8>>, int), DecodeError>::Ok(
        (Seq::<Seq<u8>>::empty(), pos as int),
    ));
    let ghost decoded = addrs@.map_values(|a: PeerAddr| a@);
    assert(decoded + Seq::<Seq<u8>>::empty() =~= decoded);
    if pos != b.len() {
        return Err(DecodeError::Malformed);
    }
    let pkt = AnnouncePacket { device_id, device_name, retransmit: rt == 1, port, addresses: addrs };
    assert(spec_decode(b@) == Result::<PacketModel, DecodeError>::Ok(pkt@));
    Ok(pkt)
}

/// An encoded address list placed at the tail of a byte sequence parses back
/// to exactly the addresses it came from.
proof fn lemma_decode_addrs_of_encode(b: Seq<u8>, pos: int, addrs: Seq<Seq<u8>>)
    requires
        forall|i: int| 0 <= i < addrs.len() ==> valid_addr(#[trigger] addrs[i]),
        0 <= pos <= b.len(),
        b.subrange(pos, b.len() as int) == spec_encode_addrs(addrs),
    ensures
        spec_decode_addrs(b, pos, addrs.len() as int) == Result::<
            (Seq<Seq<u8>>, int),
            DecodeError,
        >::Ok((addrs, b.len() as int)),
    decreases addrs.len(),
{
    let tail = b.subrange(pos, b.len() as int);
    if addrs.len() == 0 {
        assert(tail.len() == 0);
        assert(pos == b.len());
        assert(addrs =~= Seq::<Seq<u8>>::empty());
    } else {
        let a = addrs[0];
        let rest = addrs.drop_first();
        let enc_rest = spec_encode_addrs(rest);
        assert(tail =~= seq![family_byte(a)] + a + enc_rest);
        assert(b[pos] == tail[0]);
        assert(tail[0] == family_byte(a));
        let alen: int = if b[pos] == 6 {
            16
        } else {
            4
        };
        assert(valid_addr(a));
        assert(alen == a.len());
        assert(tail.len() == 1 + a.len() + enc_rest.len());
        assert(pos + 1 + alen <= b.len());
        assert(b.subrange(pos + 1, pos + 1 + alen) =~= a) by {
            assert(forall|i: int|
                0 <= i < alen ==> #[trigger] b.subrange(pos + 1, pos + 1 + alen)[i] == tail[1 + i]);
        }
        assert(b.subrange(pos + 1 + alen, b.len() as int) =~= enc_rest) by {
            assert(forall|i: int|
                0 <= i < enc_rest.len() ==> #[trigger] b.subrange(pos + 1 + alen, b.len() as int)[i]
                    == tail[1 + alen + i]);
        }
        lemma_decode_addrs_of_encode(b, pos + 1 + alen, rest);
        assert(seq![a] + rest =~= addrs);
    }
}

/// Where each field of a well-formed packet lies in its wire bytes.
proof fn lemma_encode_fields(m: PacketModel)
    requires
        wf_packet(m),
    ensures
        spec_encode(m).len() == 27 + m.device_name.len() + spec_encode_addrs(m.addresses).len(),
        spec_encode(m).subrange(0, 4) == spec_magic(),
        spec_encode(m)[4] == WIRE_VERSION,
        spec_encode(m)[21] == 0,
        spec_encode(m)[22] == m.device_name.len(),
        spec_encode(m).subrange(5, 21) == m.device_id,
        spec_encode(m).subrange(23, 23 + m.device_name.len() as int) == m.device_name,
        spec_encode(m)[23 + m.device_name.len() as int] == u16_hi(m.port),
        spec_encode(m)[24 + m.device_name.len() as int] == u16_lo(m.port),
        u16_hi(m.port) * 256 + u16_lo(m.port) == m.port,
        spec_encode(m)[25 + m.device_name.len() as int] == (if m.retransmit {
            1u8
        } else {
            0u8
        }),
        spec_encode(m)[26 + m.device_name.len() as int] == m.addresses.len() as u8,
        spec_encode(m)[26 + m.device_name.len() as int] as int == m.addresses.len() as int,
        spec_encode(m).subrange(27 + m.device_name.len() as int, spec_encode(m).len() as int)
            == spec_encode_addrs(m.addresses),
{
    let e = spec_encode(m);
    let n: int = m.device_name.len() as int;
    let enc_addrs = spec_encode_addrs(m.addresses);
    assert(e.len() == 27 + n + enc_addrs.len());
    assert(e.subrange(0, 4) =~= spec_magic());
    assert(e[21] == u16_hi(n as u16) && e[22] == u16_lo(n as u16));
    assert(u16_hi(n as u16) == 0 && u16_lo(n as u16) == n);
    assert(e.subrange(5, 21) =~= m.device_id);
    assert(e.subrange(23, 23 + n) =~= m.device_name);
    assert(e.subrange(27 + n, e.len() as int) =~= enc_addrs);
}

/// Round trip: decoding the encoding of any well-formed packet yields that
/// packet back, unchanged.
pub proof fn lemma_round_trip(m: PacketModel)
    requires
        wf_packet(m),
    ensures
        spec_decode(spec_encode(m)) == Result::<PacketModel, DecodeError>::Ok(m),
{
    let e = spec_encode(m);
    let n: int = m.device_name.len() as int;
    lemma_encode_fields(m);
    assert(e[21] * 256 + e[22] == n);
    let p: int = 23 + n;
    lemma_decode_addrs_of_encode(e, p + 4, m.addresses);
    assert(spec_decode(e)->Ok_0 =~= m);
}

/// An address list cut short anywhere before its end parses to `Truncated`.
proof fn lemma_decode_addrs_truncated(b: Seq<u8>, pos: int, addrs: Seq<Seq<u8>>)
    requires
        forall|i: int| 0 <= i < addrs.len() ==> valid_addr(#[trigger] addrs[i]),
        0 <= pos <= b.len(),
        b.len() < pos + spec_encode_addrs(addrs).len(),
        b.subrange(pos, b.len() as int) == spec_encode_addrs(addrs).take(b.len() - pos),
    ensures
        spec_decode_addrs(b, pos, addrs.len() as int) == Result::<
            (Seq<Seq<u8>>, int),
            DecodeError,
        >::Err(DecodeError::Truncated),
    decreases addrs.len(),
{
    let avail: int = b.len() - pos;
    let enc = spec_encode_addrs(addrs);
    assert(addrs.len() > 0);
    let a = addrs[0];
    let rest = addrs.drop_first();
    let enc_rest = spec_encode_addrs(rest);
    assert(enc =~= seq![family_byte(a)] + a + enc_rest);
    if avail == 0 {
    } else {
        assert(b[pos] == enc.take(avail)[0]);
        assert(b[pos] == family_byte(a));
        let alen: int = if b[pos] == 6 {
            16
        } else {
            4
        };
        assert(valid_addr(a));
        assert(alen == a.len());
        if pos + 1 + alen > b.len() {
        } else {
            assert(b.subrange(pos + 1, pos + 1 + alen) =~= a) by {
                assert(forall|i: int|
                    0 <= i < alen ==> #[trigger] b.subrange(pos + 1, pos + 1 + alen)[i]
                        == b.subrange(pos, b.len() as int)[1 + i]);
            }
            let pos2: int = pos + 1 + alen;
            assert(b.len() < pos2 + enc_rest.len());
            assert(b.subrange(pos2, b.len() as int) =~= enc_rest.take(b.len() - pos2)) by {
                assert(forall|i: int|
                    0 <= i < b.len() - pos2 ==> #[trigger] b.subrange(pos2, b.len() as int)[i]
                        == b.subrange(pos, b.len() as int)[1 + alen + i]);
            }
            lemma_decode_addrs_truncated(b, pos2, rest);
        }
    }
}

/// Truncation: cutting any number of bytes off the end of a valid encoding
/// yields `Truncated`, never a packet and never another error.
pub proof fn lemma_decode_truncated(m: PacketModel, k: int)
    requires
        wf_packet(m),
        0 <= k < spec_encode(m).len(),
    ensures
        spec_decode(spec_encode(m).take(k)) == Result::<PacketModel, DecodeError>::Err(
            DecodeError::Truncated,
        ),
{
    let e = spec_encode(m);
    let t = e.take(k);
    let n: int = m.device_name.len() as int;
    let p: int = 23 + n;
    lemma_encode_fields(m);
    assert(forall|i: int| 0 <= i < k ==> t[i] == e[i]);
    if k < 4 {
    } else {
        assert(t.subrange(0, 4) =~= spec_magic());
        if k < 5 {
        } else if k < 23 {
        } else {
            assert(t[21] * 256 + t[22] == n);
            if k < 23 + n {
            } else if k < p + 4 {
            } else {
                assert(t[p + 2] == 0 || t[p + 2] == 1);
                assert(t[p + 3] as int == m.addresses.len() as int);
                assert(t.subrange(p + 4, t.len() as int) =~= spec_encode_addrs(m.addresses).take(
                    k - (p + 4),
                )) by {
                    assert(forall|i: int|
                        0 <= i < k - (p + 4) ==> #[trigger] t.subrange(p + 4, t.len() as int)[i]
                            == e.subrange(p + 4, e.len() as int)[i]);
                }
                lemma_decode_addrs_truncated(t, p + 4, m.addresses);
            }
        }
    }
}

/// A datagram that does not open with the protocol magic is rejected as
/// `BadMagic`, never decoded as a packet.
pub proof fn lemma_decode_bad_magic(b: Seq<u8>)
    requires
        b.len() >= 4,
        b.subrange(0, 4) != spec_magic(),
    ensures
        spec_decode(b) == Result::<PacketModel, DecodeError>::Err(DecodeError::BadMagic),
{
}

/// A datagram whose declared name length exceeds the maximum is rejected as
/// `Malformed`, whatever follows the length field.
pub proof fn lemma_decode_oversized_name(b: Seq<u8>)
    requires
        b.len() >= 23,
        b.subrange(0, 4) == spec_magic(),
        b[4] == WIRE_VERSION,
        b[21] * 256 + b[22] > MAX_NAME_LEN,
    ensures
        spec_decode(b) == Result::<PacketModel, DecodeError>::Err(DecodeError::Malformed),
{
}

/// A datagram whose declared address count exceeds the maximum is rejected
/// as `Malformed`, whatever follows the count field.
pub proof fn lemma_decode_oversized_addr_count(b: Seq<u8>)
    requires
        b.subrange(0, 4) == spec_magic(),
        b[4] == WIRE_VERSION,
        b[21] * 256 + b[22] <= MAX_NAME_LEN,
        b.len() >= 27 + b[21] * 256 + b[22],
        b[25 + b[21] * 256 + b[22]] == 0 || b[25 + b[21] * 256 + b[22]] == 1,
        b[26 + b[21] * 256 + b[22]] > MAX_ADDRS,
    ensures
        spec_decode(b) == Result::<PacketModel, DecodeError>::Err(DecodeError::Malformed),
{
}

/// Copies `len` bytes of `b` starting at `start`.
pub(crate) fn copy_range(b: &Vec<u8>, start: usize, len: usize) -> (r: Vec<u8>)
    requires
        start + len <= b@.len(),
    ensures
        r@ == b@.subrange(start as int, start as int + len as int),
{
    let blen: usize = b.len();
    let mut r: Vec<u8> = Vec::new();
    let mut i: usize = 0;
    while i < len
        invariant
            i <= len,
            start + len <= blen,
            blen == b@.len(),
            r@ == b@.subrange(start as int, start as int + i as int),
        decreases len - i,
    {
        r.push(b[start + i]);
        assert(b@.subrange(start as int, start as int + i as int).push(
            b@[start as int + i as int],
        ) =~= b@.subrange(start as int, start as int + i as int + 1));
        i += 1;
    }
    r
}

} // verus!
