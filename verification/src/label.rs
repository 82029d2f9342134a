use crate::error::DnsError;
use vstd::prelude::*;

verus! {

// ---------------------------------------------------------------------------
// Characters and wire bytes
// ---------------------------------------------------------------------------
/// The wire byte of one name character: its code point, truncated to a byte.
/// Only characters whose code point fits a byte can be carried faithfully.
pub open spec fn char_byte(c: char) -> u8 {
    (c as u32) as u8
}

/// The name character read back from one wire byte.
pub open spec fn byte_char(b: u8) -> char {
    b as char
}

/// The wire bytes of a run of name characters.
pub open spec fn chars_to_bytes(s: Seq<char>) -> Seq<u8> {
    s.map_values(|c: char| char_byte(c))
}

/// The name characters read back from a run of wire bytes.
pub open spec fn bytes_to_chars(b: Seq<u8>) -> Seq<char> {
    b.map_values(|x: u8| byte_char(x))
}

/// Every character of the name fits one wire byte.
pub open spec fn chars_fit(name: Seq<char>) -> bool {
    forall|i: int| 0 <= i < name.len() ==> ((#[trigger] name[i]) as u32) < 256
}

/// Reading back the wire bytes of characters that fit a byte gives the
/// characters unchanged.
pub proof fn lemma_chars_bytes_roundtrip(s: Seq<char>)
    requires
        chars_fit(s),
    ensures
        bytes_to_chars(chars_to_bytes(s)) == s,
{
    assert forall|i: int| 0 <= i < s.len() implies bytes_to_chars(chars_to_bytes(s))[i]
        == s[i] by {
        let c = s[i];
        assert((c as u32) < 256);
        let b: u8 = (c as u32) as u8;
        assert(char_byte(c) == b);
        assert(b as u32 == c as u32);
        vstd::utf8::char_u32_cast(c, b as u32);
        assert(byte_char(b) == c);
    }
    assert(bytes_to_chars(chars_to_bytes(s)) =~= s);
}

/// Characters read back from wire bytes always fit a byte.
pub proof fn lemma_bytes_chars_fit(b: Seq<u8>)
    ensures
        chars_fit(bytes_to_chars(b)),
{
    assert forall|i: int| 0 <= i < bytes_to_chars(b).len() implies ((#[trigger] bytes_to_chars(
        b,
    )[i]) as u32) < 256 by {
        assert(bytes_to_chars(b)[i] == byte_char(b[i]));
    }
}

// ---------------------------------------------------------------------------
// Segmentation of a dotted name
// ---------------------------------------------------------------------------
/// The number of characters before the first dot: the first segment's length.
pub open spec fn seg_len(name: Seq<char>) -> nat
    decreases name.len(),
{
    if name.len() == 0 {
        0
    } else if name[0] == '.' {
        0
    } else {
        seg_len(name.skip(1)) + 1
    }
}

/// The first segment is never longer than the name.
pub proof fn lemma_seg_len_le(name: Seq<char>)
    ensures
        seg_len(name) <= name.len(),
    decreases name.len(),
{
    if name.len() != 0 && name[0] != '.' {
        lemma_seg_len_le(name.skip(1));
    }
}

/// `seg_len` is the index of the first dot (or the length if there is none):
/// no dot occurs before it, and a dot stands at it when it is interior.
pub proof fn lemma_seg_len_chars(name: Seq<char>)
    ensures
        seg_len(name) <= name.len(),
        forall|i: int| 0 <= i < seg_len(name) ==> name[i] != '.',
        seg_len(name) < name.len() ==> name[seg_len(name) as int] == '.',
    decreases name.len(),
{
    lemma_seg_len_le(name);
    if name.len() != 0 && name[0] != '.' {
        lemma_seg_len_chars(name.skip(1));
        assert forall|i: int| 0 <= i < seg_len(name) implies name[i] != '.' by {
            if i >= 1 {
                assert(name.skip(1)[i - 1] == name[i]);
            }
        }
        if seg_len(name) < name.len() {
            assert(name.skip(1)[seg_len(name) - 1] == name[seg_len(name) as int]);
        }
    }
}

/// Conversely, a position with no dot before it and a dot (or the end) at it
/// is exactly `seg_len`.
pub proof fn lemma_seg_len_from_chars(name: Seq<char>, k: int)
    requires
        0 <= k <= name.len(),
        forall|i: int| 0 <= i < k ==> name[i] != '.',
        k == name.len() || name[k] == '.',
    ensures
        seg_len(name) == k,
    decreases name.len(),
{
    if k == 0 {
    } else {
        assert(name[0] != '.');
        assert forall|i: int| 0 <= i < k - 1 implies name.skip(1)[i] != '.' by {
            assert(name.skip(1)[i] == name[i + 1]);
        }
        if k < name.len() {
            assert(name.skip(1)[k - 1] == name[k]);
        }
        lemma_seg_len_from_chars(name.skip(1), k - 1);
    }
}

/// Every dot-separated segment of the name has at most `bound` characters.
pub open spec fn segments_le(name: Seq<char>, bound: int) -> bool
    decreases name.len(),
    via segments_le_decreases
{
    let k = seg_len(name);
    k <= bound && (k == name.len() || segments_le(name.skip(k as int + 1), bound))
}

#[via_fn]
proof fn segments_le_decreases(name: Seq<char>, bound: int) {
    lemma_seg_len_le(name);
}

/// Every dot-separated segment is nonempty and at most 191 characters long,
/// so that its length byte on the wire is neither the terminator (0) nor
/// mistakable for a compression pointer (192 and up).
pub open spec fn segments_wire_safe(name: Seq<char>) -> bool
    decreases name.len(),
    via segments_wire_safe_decreases
{
    let k = seg_len(name);
    1 <= k <= 191 && (k == name.len() || segments_wire_safe(name.skip(k as int + 1)))
}

#[via_fn]
proof fn segments_wire_safe_decreases(name: Seq<char>) {
    lemma_seg_len_le(name);
}

/// Names that [`encode_label`] accepts: every character fits a byte and every
/// segment's length fits the one-byte length field.
pub open spec fn encodable(name: Seq<char>) -> bool {
    chars_fit(name) && segments_le(name, 255)
}

/// Names that survive a trip through a whole message unchanged: the root
/// (empty) name, or one whose segments are nonempty and short enough that
/// their length bytes cannot be mistaken for a terminator or a pointer.
pub open spec fn wire_safe(name: Seq<char>) -> bool {
    chars_fit(name) && (name.len() == 0 || segments_wire_safe(name))
}

/// A short name has short segments: each is no longer than the whole.
pub proof fn lemma_segments_le_of_short(name: Seq<char>, bound: int)
    requires
        name.len() <= bound,
    ensures
        segments_le(name, bound),
    decreases name.len(),
{
    lemma_seg_len_le(name);
    let k = seg_len(name);
    if k < name.len() {
        lemma_segments_le_of_short(name.skip(k as int + 1), bound);
    }
}

/// A segment bound weakens monotonically.
pub proof fn lemma_segments_le_mono(name: Seq<char>, a: int, b: int)
    requires
        segments_le(name, a),
        a <= b,
    ensures
        segments_le(name, b),
    decreases name.len(),
{
    lemma_seg_len_le(name);
    let k = seg_len(name);
    if k < name.len() {
        lemma_segments_le_mono(name.skip(k as int + 1), a, b);
    }
}

/// Wire-safe segments in particular fit the length byte.
pub proof fn lemma_wire_safe_encodable(name: Seq<char>)
    requires
        wire_safe(name),
    ensures
        encodable(name),
    decreases name.len(),
{
    if name.len() == 0 {
    } else {
        lemma_seg_len_le(name);
        let k = seg_len(name);
        if k < name.len() {
            let rest = name.skip(k as int + 1);
            assert(chars_fit(rest)) by {
                assert forall|i: int| 0 <= i < rest.len() implies ((#[trigger] rest[i]) as u32)
                    < 256 by {
                    assert(rest[i] == name[i + k + 1]);
                }
            }
            lemma_wire_safe_encodable(rest);
        }
    }
}

/// Joining two names with a dot keeps their segment bound.
pub proof fn lemma_segments_le_concat(x: Seq<char>, y: Seq<char>, bound: int)
    requires
        segments_le(x, bound),
        segments_le(y, bound),
    ensures
        segments_le(x + seq!['.'] + y, bound),
    decreases x.len(),
{
    let whole = x + seq!['.'] + y;
    let k = seg_len(x);
    lemma_seg_len_chars(x);
    assert forall|i: int| 0 <= i < k implies whole[i] != '.' by {
        assert(whole[i] == x[i]);
    }
    assert(whole[k as int] == if k < x.len() {
        x[k as int]
    } else {
        '.'
    });
    lemma_seg_len_from_chars(whole, k as int);
    if k == x.len() {
        assert(whole.skip(k as int + 1) =~= y);
    } else {
        lemma_segments_le_concat(x.skip(k as int + 1), y, bound);
        assert(whole.skip(k as int + 1) =~= x.skip(k as int + 1) + seq!['.'] + y);
    }
}

// ---------------------------------------------------------------------------
// Encoding
// ---------------------------------------------------------------------------
/// The wire bytes of a nonempty name's segments: for each segment one length
/// byte followed by the segment's characters, in order, without terminator.
pub open spec fn spec_encode_segments(name: Seq<char>) -> Seq<u8>
    decreases name.len(),
    via spec_encode_segments_decreases
{
    let k = seg_len(name);
    let seg = seq![k as u8] + chars_to_bytes(name.take(k as int));
    if k == name.len() {
        seg
    } else {
        seg + spec_encode_segments(name.skip(k as int + 1))
    }
}

#[via_fn]
proof fn spec_encode_segments_decreases(name: Seq<char>) {
    lemma_seg_len_le(name);
}

/// The full wire form of a domain name: its segments' label bytes followed by
/// the terminating zero byte.  The root (empty) name is the terminator alone.
pub open spec fn spec_encode_name(name: Seq<char>) -> Seq<u8> {
    if name.len() == 0 {
        seq![0u8]
    } else {
        spec_encode_segments(name) + seq![0u8]
    }
}

// ---------------------------------------------------------------------------
// Decoding
// ---------------------------------------------------------------------------
/// Decodes the label sequence of `b` from `pos` on, mirroring the scan of
/// [`decode_label`]: read a length byte, copy that many content bytes as
/// characters, and put a dot between runs; the scan ends when fewer than two
/// bytes remain (a well-formed name ends with its terminator byte, which is
/// never read as a length).  `None` when a length byte claims content past
/// the end of the buffer.
pub open spec fn spec_decode_from(b: Seq<u8>, pos: int) -> Option<Seq<char>>
    decreases b.len() - pos,
{
    if pos < 0 {
        None
    } else if pos + 1 >= b.len() {
        Some(Seq::empty())
    } else {
        let n = b[pos] as int;
        if pos + 1 + n > b.len() {
            None
        } else {
            match spec_decode_from(b, pos + 1 + n) {
                Some(rest) => Some(
                    bytes_to_chars(b.subrange(pos + 1, pos + 1 + n)) + (if pos + 2 + n < b.len() {
                        seq!['.']
                    } else {
                        Seq::<char>::empty()
                    }) + rest,
                ),
                None => None,
            }
        }
    }
}

/// The name decoded from a whole label-sequence buffer.
pub open spec fn spec_decode_name(b: Seq<u8>) -> Option<Seq<char>> {
    spec_decode_from(b, 0)
}

/// Decoding from `p + q` in a buffer reads the same name as decoding from `q`
/// after dropping the first `p` bytes.
pub proof fn lemma_decode_shift(b: Seq<u8>, p: int, q: int)
    requires
        0 <= p <= b.len(),
        0 <= q,
    ensures
        spec_decode_from(b, p + q) == spec_decode_from(b.skip(p), q),
    decreases b.len() - (p + q),
{
    let t = b.skip(p);
    if p + q + 1 >= b.len() {
    } else {
        assert(t[q] == b[p + q]);
        let n = b[p + q] as int;
        if p + q + 1 + n <= b.len() {
            lemma_decode_shift(b, p, q + 1 + n);
            assert(t.subrange(q + 1, q + 1 + n) =~= b.subrange(p + q + 1, p + q + 1 + n));
        }
    }
}

// ---------------------------------------------------------------------------
// Executable codec
// ---------------------------------------------------------------------------
/// Relies on `alloc::string::String::push`: appends the given character to
/// the end of the string.
pub assume_specification [ String::push ](s: &mut String, ch: char)
    ensures
        final(s)@ == old(s)@.push(ch),
;

/// Encodes a dotted domain name into its wire label sequence: one length byte
/// and the raw characters per segment, then a terminating zero byte.  The
/// root (empty) name encodes as the terminator alone.  Rejected with
/// [`DnsError::EncodingError`] are exactly the names with a segment longer
/// than 255 characters or a character that does not fit one byte.
pub fn encode_label(input_string: &String) -> (r: Result<Vec<u8>, DnsError>)
    ensures
        match r {
            Ok(v) => encodable(input_string@) && v@ == spec_encode_name(input_string@),
            Err(e) => !encodable(input_string@) && e == DnsError::EncodingError,
        },
{
    let ghost name = input_string@;
    let s = input_string.as_str();
    let n = s.unicode_len();
    let mut out: Vec<u8> = Vec::new();
    if n == 0 {
        out.push(0);
        assert(out@ =~= spec_encode_name(name));
        return Ok(out);
    }
    let mut start: usize = 0;
    proof {
        assert(name.skip(0) =~= name);
    }
    loop
        invariant_except_break
            segments_le(name, 255) == segments_le(name.skip(start as int), 255),
            spec_encode_segments(name) == out@ + spec_encode_segments(name.skip(start as int)),
        invariant
            name == input_string@,
            s@ == name,
            n == name.len(),
            0 < n,
            start <= n,
            start == 0 || name[start as int - 1] == '.',
            forall|t: int| 0 <= t < start ==> ((#[trigger] name[t]) as u32) < 256,
        ensures
            chars_fit(name),
            segments_le(name, 255),
            out@ == spec_encode_segments(name),
        decreases n - start,
    {
        let ghost tail = name.skip(start as int);
        // find the end of the segment that begins at `start`
        let mut j: usize = start;
        loop
            invariant
                name == input_string@,
                s@ == name,
                n == name.len(),
                start <= j <= n,
                forall|t: int|
                    start <= t < j ==> name[t] != '.' && ((#[trigger] name[t]) as u32) < 256,
            ensures
                start <= j <= n,
                forall|t: int|
                    start <= t < j ==> name[t] != '.' && ((#[trigger] name[t]) as u32) < 256,
                j == n || name[j as int] == '.',
            decreases n - j,
        {
            if j == n {
                break ;
            }
            let c = s.get_char(j);
            if c == '.' {
                break ;
            }
            if (c as u32) >= 256 {
                proof {
                    assert(((name[j as int]) as u32) >= 256);
                    assert(!chars_fit(name));
                }
                return Err(DnsError::EncodingError);
            }
            j += 1;
        }
        proof {
            // the scanned run is exactly the first segment of the remainder
            assert forall|i: int| 0 <= i < j - start implies tail[i] != '.' by {
                assert(tail[i] == name[start + i]);
            }
            if j < n {
                assert(tail[j - start] == name[j as int]);
            }
            lemma_seg_len_from_chars(tail, j - start);
        }
        if j - start > 255 {
            proof {
                assert(!segments_le(tail, 255));
                assert(!encodable(name));
            }
            return Err(DnsError::EncodingError);
        }
        let seg_chars: u8 = (j - start) as u8;
        let ghost out_mid = out@;
        out.push(seg_chars);
        let mut t: usize = start;
        while t < j
            invariant
                s@ == name,
                n == name.len(),
                start <= t <= j <= n,
                forall|q: int|
                    start <= q < j ==> name[q] != '.' && ((#[trigger] name[q]) as u32) < 256,
                out@ == out_mid + seq![seg_chars] + chars_to_bytes(
                    name.subrange(start as int, t as int),
                ),
            decreases j - t,
        {
            let c = s.get_char(t);
            out.push(c as u8);
            proof {
                assert(chars_to_bytes(name.subrange(start as int, t + 1)) =~= chars_to_bytes(
                    name.subrange(start as int, t as int),
                ).push(char_byte(name[t as int])));
                assert(out@ =~= out_mid + seq![seg_chars] + chars_to_bytes(
                    name.subrange(start as int, t + 1),
                ));
            }
            t += 1;
        }
        proof {
            assert(tail.take(j - start) =~= name.subrange(start as int, j as int));
            assert(seg_len(tail) == j - start);
            assert(out@ =~= out_mid + (seq![seg_chars] + chars_to_bytes(tail.take(j - start))));
        }
        if j == n {
            proof {
                assert(seg_len(tail) == tail.len());
                assert(spec_encode_segments(tail) == seq![seg_chars] + chars_to_bytes(
                    tail.take(j - start),
                ));
                assert(segments_le(tail, 255));
                assert(spec_encode_segments(name) =~= out@);
                assert forall|t2: int| 0 <= t2 < name.len() implies ((#[trigger] name[t2]) as u32)
                    < 256 by {
                    if t2 >= start {
                        assert(start <= t2 < j);
                    }
                }
            }
            break ;
        }
        proof {
            assert(seg_len(tail) < tail.len());
            assert(tail.skip(j - start + 1) =~= name.skip(j + 1));
            assert(spec_encode_segments(tail) == (seq![seg_chars] + chars_to_bytes(
                tail.take(j - start),
            )) + spec_encode_segments(name.skip(j + 1)));
            assert(segments_le(tail, 255) == segments_le(name.skip(j + 1), 255));
            assert(spec_encode_segments(name) =~= out@ + spec_encode_segments(name.skip(j + 1)));
            assert(('.' as u32) < 256);
        }
        start = j + 1;
    }
    out.push(0);
    proof {
        assert(out@ =~= spec_encode_segments(name) + seq![0u8]);
    }
    Ok(out)
}

/// Decodes a wire label sequence back into a dotted domain name, reading
/// length-prefixed runs until fewer than two bytes remain.  Fails with
/// [`DnsError::TruncatedRecord`] exactly when a length byte claims content
/// past the end of the input.
pub fn decode_label(input: &[u8]) -> (r: Result<String, DnsError>)
    ensures
        match r {
            Ok(s) => spec_decode_name(input@) == Some(s@),
            Err(e) => spec_decode_name(input@) is None && e == DnsError::TruncatedRecord,
        },
{
    let len = input.len();
    let mut out = String::new();
    let mut pos: usize = 0;
    loop
        invariant
            pos <= len,
            len == input@.len(),
            match spec_decode_from(input@, pos as int) {
                Some(rest) => spec_decode_from(input@, 0) == Some(out@ + rest),
                None => spec_decode_from(input@, 0) is None,
            },
        ensures
            spec_decode_from(input@, 0) == Some(out@),
        decreases len - pos,
    {
        if len - pos <= 1 {
            proof {
                assert(spec_decode_from(input@, pos as int) == Some(Seq::<char>::empty()));
                assert(out@ + Seq::<char>::empty() =~= out@);
            }
            break ;
        }
        let n = input[pos] as usize;
        if n > len - pos - 1 {
            return Err(DnsError::TruncatedRecord);
        }
        let ghost out_mid = out@;
        let end = pos + 1 + n;
        let mut t = pos + 1;
        while t < end
            invariant
                len == input@.len(),
                pos + 1 <= t <= end <= len,
                out@ == out_mid + bytes_to_chars(input@.subrange(pos + 1, t as int)),
            decreases end - t,
        {
            let c = input[t] as char;
            out.push(c);
            proof {
                assert(bytes_to_chars(input@.subrange(pos + 1, t + 1)) =~= bytes_to_chars(
                    input@.subrange(pos + 1, t as int),
                ).push(byte_char(input@[t as int])));
            }
            t += 1;
        }
        let ghost content = bytes_to_chars(input@.subrange(pos + 1, pos + 1 + n));
        if len - end > 1 {
            out.push('.');
            proof {
                assert(out@ =~= out_mid + (content + seq!['.']));
            }
        }
        proof {
            let rest0 = spec_decode_from(input@, pos as int);
            let rest1 = spec_decode_from(input@, end as int);
            match rest1 {
                Some(r1) => {
                    let sep: Seq<char> = if end + 1 < len {
                        seq!['.']
                    } else {
                        Seq::empty()
                    };
                    assert(rest0 == Some(content + sep + r1));
                    assert(out_mid + (content + sep + r1) =~= out@ + r1);
                },
                None => {},
            }
        }
        pos = end;
    }
    Ok(out)
}

/// Encodes a dotted domain name into its wire label sequence; the same
/// function as [`encode_label`] under the name used by the protocol module.
pub fn to_encoded_label(input_string: &String) -> (r: Result<Vec<u8>, DnsError>)
    ensures
        match r {
            Ok(v) => encodable(input_string@) && v@ == spec_encode_name(input_string@),
            Err(e) => !encodable(input_string@) && e == DnsError::EncodingError,
        },
{
    encode_label(input_string)
}

// ---------------------------------------------------------------------------
// Round trip
// ---------------------------------------------------------------------------
/// Decoding picks up an encoded suffix: if the buffer from `p` on holds
/// exactly the segment bytes of `tail` and the terminator, it decodes to
/// `tail`.
proof fn lemma_decode_encoded_suffix(b: Seq<u8>, p: int, tail: Seq<char>)
    requires
        chars_fit(tail),
        segments_le(tail, 255),
        0 <= p,
        b.len() == p + spec_encode_segments(tail).len() + 1,
        b.subrange(p, b.len() as int) == spec_encode_segments(tail) + seq![0u8],
    ensures
        spec_decode_from(b, p) == Some(tail),
    decreases tail.len(),
{
    let k = seg_len(tail);
    lemma_seg_len_chars(tail);
    let enc = spec_encode_segments(tail) + seq![0u8];
    let seg = seq![k as u8] + chars_to_bytes(tail.take(k as int));
    assert(chars_to_bytes(tail.take(k as int)).len() == k);
    assert(b[p] == enc[0]);
    assert(enc[0] == k as u8);
    assert(b[p] as int == k);
    let newpos = p + 1 + k;
    assert(b.subrange(p + 1, newpos) =~= enc.subrange(1, 1 + k as int));
    assert(enc.subrange(1, 1 + k as int) =~= chars_to_bytes(tail.take(k as int)));
    lemma_chars_bytes_roundtrip(tail.take(k as int));
    if k == tail.len() {
        assert(b.len() == p + k + 2);
        assert(spec_decode_from(b, newpos) == Some(Seq::<char>::empty()));
        assert(bytes_to_chars(b.subrange(p + 1, newpos)) + Seq::<char>::empty()
            + Seq::<char>::empty() =~= tail);
    } else {
        let rest = tail.skip(k as int + 1);
        assert(chars_fit(rest)) by {
            assert forall|i: int| 0 <= i < rest.len() implies ((#[trigger] rest[i]) as u32)
                < 256 by {
                assert(rest[i] == tail[i + k + 1]);
            }
        }
        assert(spec_encode_segments(tail) == seg + spec_encode_segments(rest));
        let encr = spec_encode_segments(rest) + seq![0u8];
        assert(enc =~= seg + encr);
        assert(b.subrange(newpos, b.len() as int) =~= encr) by {
            assert forall|i: int| 0 <= i < encr.len() implies b.subrange(
                newpos,
                b.len() as int,
            )[i] == encr[i] by {
                assert(b.subrange(p, b.len() as int)[k + 1 + i] == b[p + (k + 1 + i)]);
                assert(enc[k + 1 + i] == encr[i]);
                assert(b.subrange(newpos, b.len() as int)[i] == b[newpos + i]);
            }
        }
        lemma_decode_encoded_suffix(b, newpos, rest);
        assert(spec_encode_segments(rest).len() >= 1) by {
            let k2 = seg_len(rest);
            assert(spec_encode_segments(rest)[0] == k2 as u8);
        }
        assert(p + 2 + k < b.len());
        assert(bytes_to_chars(b.subrange(p + 1, newpos)) + seq!['.'] + rest =~= tail);
    }
}

/// Round trip: decoding the wire form of a name gives the name back, for
/// every name that [`encode_label`] accepts — every character fits a byte
/// and every segment fits the one-byte length field.
pub proof fn lemma_name_roundtrip(name: Seq<char>)
    requires
        encodable(name),
    ensures
        spec_decode_name(spec_encode_name(name)) == Some(name),
{
    let b = spec_encode_name(name);
    if name.len() == 0 {
        assert(b =~= seq![0u8]);
        assert(spec_decode_from(b, 0) == Some(Seq::<char>::empty()));
        assert(Seq::<char>::empty() =~= name);
    } else {
        assert(b.subrange(0, b.len() as int) =~= spec_encode_segments(name) + seq![0u8]);
        lemma_decode_encoded_suffix(b, 0, name);
    }
}

} // verus!
