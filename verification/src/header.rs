use vstd::prelude::*;

verus! {

/// The fixed 12-byte DNS message header: transaction id, packed flag bits,
/// and the four big-endian section counts.
///
/// Byte 2 of the wire form packs `qr|opcode|aa|tc|rd`, byte 3 packs
/// `ra|z|rcode`; the remaining bytes are `id` and the counts, big-endian.
#[derive(Clone, Copy, Debug, PartialEq, Eq, Structural)]
pub struct DNSHeader {
    /// Transaction id, copied from a query into its reply (16 bits).
    pub id: u16,
    /// 1 for a reply, 0 for a query (1 bit).
    pub qr: u8,
    /// Kind of query (4 bits).
    pub opcode: u8,
    /// Authoritative answer (1 bit).
    pub aa: u8,
    /// Message truncated (1 bit).
    pub tc: u8,
    /// Recursion desired (1 bit).
    pub rd: u8,
    /// Recursion available (1 bit).
    pub ra: u8,
    /// Reserved (3 bits).
    pub z: u8,
    /// Response code (4 bits).
    pub rcode: u8,
    /// Number of questions (16 bits).
    pub qdcount: u16,
    /// Number of answer records (16 bits).
    pub ancount: u16,
    /// Number of authority records (16 bits).
    pub nscount: u16,
    /// Number of additional records (16 bits).
    pub arcount: u16,
}

/// The two big-endian bytes of a 16-bit value.
pub open spec fn spec_be16(x: u16) -> Seq<u8> {
    seq![(x / 256) as u8, (x % 256) as u8]
}

/// The big-endian 16-bit value at offset `i` of `b`.
pub open spec fn spec_be16_at(b: Seq<u8>, i: int) -> u16
    recommends
        0 <= i,
        i + 2 <= b.len(),
{
    ((b[i] as int) * 256 + (b[i + 1] as int)) as u16
}

impl DNSHeader {
    /// Every bit-sized field fits its declared width.
    pub open spec fn wf(self) -> bool {
        &&& self.qr <= 1
        &&& self.opcode <= 15
        &&& self.aa <= 1
        &&& self.tc <= 1
        &&& self.rd <= 1
        &&& self.ra <= 1
        &&& self.z <= 7
        &&& self.rcode <= 15
    }

    /// The 12 wire bytes of this header.
    pub open spec fn spec_to_bytes(self) -> Seq<u8> {
        spec_be16(self.id) + seq![
            (self.qr * 128 + self.opcode * 8 + self.aa * 4 + self.tc * 2 + self.rd) as u8,
            (self.ra * 128 + self.z * 16 + self.rcode) as u8,
        ] + spec_be16(self.qdcount) + spec_be16(self.ancount) + spec_be16(self.nscount)
            + spec_be16(self.arcount)
    }

    /// The header read from the first 12 bytes of `b`.
    pub open spec fn spec_from_bytes(b: Seq<u8>) -> DNSHeader
        recommends
            b.len() >= 12,
    {
        DNSHeader {
            id: spec_be16_at(b, 0),
            qr: b[2] / 128,
            opcode: (b[2] / 8) % 16,
            aa: (b[2] / 4) % 2,
            tc: (b[2] / 2) % 2,
            rd: b[2] % 2,
            ra: b[3] / 128,
            z: (b[3] / 16) % 8,
            rcode: b[3] % 16,
            qdcount: spec_be16_at(b, 4),
            ancount: spec_be16_at(b, 6),
            nscount: spec_be16_at(b, 8),
            arcount: spec_be16_at(b, 10),
        }
    }

    /// Packs the header into its 12 wire bytes.
    pub fn to_bytes(&self) -> (r: [u8; 12])
        requires
            self.wf(),
        ensures
            r@ == self.spec_to_bytes(),
    {
        let flags1: u8 = self.qr * 128 + self.opcode * 8 + self.aa * 4 + self.tc * 2 + self.rd;
        let flags2: u8 = self.ra * 128 + self.z * 16 + self.rcode;
        let r: [u8; 12] = [
            (self.id / 256) as u8,
            (self.id % 256) as u8,
            flags1,
            flags2,
            (self.qdcount / 256) as u8,
            (self.qdcount % 256) as u8,
            (self.ancount / 256) as u8,
            (self.ancount % 256) as u8,
            (self.nscount / 256) as u8,
            (self.nscount % 256) as u8,
            (self.arcount / 256) as u8,
            (self.arcount % 256) as u8,
        ];
        proof {
            assert(r@ =~= self.spec_to_bytes());
        }
        r
    }

    /// Unpacks a header from exactly 12 wire bytes.  Total: every 12-byte
    /// buffer is some header, and the result always satisfies [`DNSHeader::wf`].
    pub fn from_bytes(input_bytes: &[u8; 12]) -> (r: DNSHeader)
        ensures
            r == Self::spec_from_bytes(input_bytes@),
            r.wf(),
    {
        let b2 = input_bytes[2];
        let b3 = input_bytes[3];
        let r = DNSHeader {
            id: (input_bytes[0] as u16) * 256 + (input_bytes[1] as u16),
            qr: b2 / 128,
            opcode: (b2 / 8) % 16,
            aa: (b2 / 4) % 2,
            tc: (b2 / 2) % 2,
            rd: b2 % 2,
            ra: b3 / 128,
            z: (b3 / 16) % 8,
            rcode: b3 % 16,
            qdcount: (input_bytes[4] as u16) * 256 + (input_bytes[5] as u16),
            ancount: (input_bytes[6] as u16) * 256 + (input_bytes[7] as u16),
            nscount: (input_bytes[8] as u16) * 256 + (input_bytes[9] as u16),
            arcount: (input_bytes[10] as u16) * 256 + (input_bytes[11] as u16),
        };
        r
    }
}

/// Unpacking the 12 wire bytes of a well-formed header gives the header back:
/// the header codec round-trips on every header whose fields fit their widths.
pub proof fn lemma_header_roundtrip(h: DNSHeader)
    requires
        h.wf(),
    ensures
        DNSHeader::spec_from_bytes(h.spec_to_bytes()) == h,
{
    let b = h.spec_to_bytes();
    let qr = h.qr;
    let opcode = h.opcode;
    let aa = h.aa;
    let tc = h.tc;
    let rd = h.rd;
    let ra = h.ra;
    let z = h.z;
    let rcode = h.rcode;
    let f1: u8 = (qr * 128 + opcode * 8 + aa * 4 + tc * 2 + rd) as u8;
    let f2: u8 = (ra * 128 + z * 16 + rcode) as u8;
    assert(b[2] == f1);
    assert(b[3] == f2);
    assert(f1 / 128 == qr && (f1 / 8) % 16 == opcode && (f1 / 4) % 2 == aa && (f1 / 2) % 2 == tc
        && f1 % 2 == rd) by (bit_vector)
        requires
            qr <= 1 && opcode <= 15 && aa <= 1 && tc <= 1 && rd <= 1,
            f1 == (qr * 128 + opcode * 8 + aa * 4 + tc * 2 + rd) as u8,
    ;
    assert(f2 / 128 == ra && (f2 / 16) % 8 == z && f2 % 16 == rcode) by (bit_vector)
        requires
            ra <= 1 && z <= 7 && rcode <= 15,
            f2 == (ra * 128 + z * 16 + rcode) as u8,
    ;
    lemma_be16_roundtrip(h.id);
    lemma_be16_roundtrip(h.qdcount);
    lemma_be16_roundtrip(h.ancount);
    lemma_be16_roundtrip(h.nscount);
    lemma_be16_roundtrip(h.arcount);
}

/// Reading back the two big-endian bytes of a 16-bit value gives the value.
pub proof fn lemma_be16_roundtrip(x: u16)
    ensures
        spec_be16_at(spec_be16(x), 0) == x,
{
}


/// Any 12 bytes unpack to a header whose fields fit their declared widths.
pub proof fn lemma_spec_from_bytes_wf(b: Seq<u8>)
    ensures
        DNSHeader::spec_from_bytes(b).wf(),
{
}


/// Two bytes that are the big-endian form of `x` read back as `x`.
pub proof fn lemma_be16_at_of(b: Seq<u8>, i: int, x: u16)
    requires
        0 <= i,
        i + 2 <= b.len(),
        b[i] == spec_be16(x)[0],
        b[i + 1] == spec_be16(x)[1],
    ensures
        spec_be16_at(b, i) == x,
{
}


/// Unpacking depends only on the first 12 bytes.
pub proof fn lemma_spec_from_bytes_prefix(b: Seq<u8>, c: Seq<u8>)
    requires
        forall|i: int| 0 <= i < 12 ==> b[i] == c[i],
    ensures
        DNSHeader::spec_from_bytes(b) == DNSHeader::spec_from_bytes(c),
{
}

} // verus!
