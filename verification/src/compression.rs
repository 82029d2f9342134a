use crate::error::DnsError;
use crate::label::{
    bytes_to_chars, chars_fit, chars_to_bytes, lemma_bytes_chars_fit, lemma_seg_len_le,
    lemma_segments_le_concat, lemma_segments_le_of_short, seg_len, segments_le,
    segments_wire_safe, spec_decode_from, spec_encode_name, spec_encode_segments, wire_safe,
};
use vstd::prelude::*;

verus! {

/// How many compression pointers one name may follow before the resolver
/// gives up with [`DnsError::PointerLoop`].
pub const MAX_POINTER_HOPS: usize = 16;

/// The label bytes (terminator excluded) of the name that starts at `pos` in
/// `full`, following at most `hops` compression pointers.  A byte with its
/// top two bits set is a pointer whose lower six bits and the following byte
/// form an offset into `full`; a zero byte ends the name; any other byte is a
/// length followed by that many content bytes.
pub open spec fn spec_labels_at(full: Seq<u8>, pos: int, hops: nat) -> Result<Seq<u8>, DnsError>
    decreases hops, full.len() - pos,
{
    if !(0 <= pos < full.len()) {
        Err(DnsError::TruncatedRecord)
    } else {
        let b = full[pos];
        if b == 0 {
            Ok(Seq::empty())
        } else if b >= 192 {
            if pos + 1 >= full.len() {
                Err(DnsError::TruncatedRecord)
            } else if hops == 0 {
                Err(DnsError::PointerLoop)
            } else {
                let off = (b - 192) * 256 + full[pos + 1];
                if off >= full.len() {
                    Err(DnsError::MalformedPointer)
                } else {
                    spec_labels_at(full, off as int, (hops - 1) as nat)
                }
            }
        } else {
            if pos + 1 + b > full.len() {
                Err(DnsError::TruncatedRecord)
            } else {
                match spec_labels_at(full, pos + 1 + b, hops) {
                    Ok(rest) => Ok(seq![b] + full.subrange(pos + 1, pos + 1 + b) + rest),
                    Err(e) => Err(e),
                }
            }
        }
    }
}

/// One scan step over the compressed slice `comp` from `pos` on: labels are
/// copied, a pointer jumps into `full` (with the full hop budget) and ends
/// the name, a zero byte ends it too.  On success the collected label bytes
/// (terminator excluded) and the scan position just past the name.
pub open spec fn spec_resolve_from(comp: Seq<u8>, pos: int, full: Seq<u8>) -> Result<
    (Seq<u8>, int),
    DnsError,
>
    decreases comp.len() - pos,
{
    if !(0 <= pos < comp.len()) {
        Err(DnsError::TruncatedRecord)
    } else {
        let b = comp[pos];
        if b == 0 {
            Ok((Seq::empty(), pos + 1))
        } else if b >= 192 {
            if pos + 1 >= comp.len() {
                Err(DnsError::TruncatedRecord)
            } else {
                let off = (b - 192) * 256 + comp[pos + 1];
                if off >= full.len() {
                    Err(DnsError::MalformedPointer)
                } else {
                    match spec_labels_at(full, off as int, MAX_POINTER_HOPS as nat) {
                        Ok(ls) => Ok((ls, pos + 2)),
                        Err(e) => Err(e),
                    }
                }
            }
        } else {
            if pos + 1 + b > comp.len() {
                Err(DnsError::TruncatedRecord)
            } else {
                match spec_resolve_from(comp, pos + 1 + b, full) {
                    Ok(pr) => Ok((seq![b] + comp.subrange(pos + 1, pos + 1 + b) + pr.0, pr.1)),
                    Err(e) => Err(e),
                }
            }
        }
    }
}

/// What [`decompress_domain_name`] computes: the uncompressed wire form of
/// the name at the start of `comp` (terminator included) and the number of
/// bytes of `comp` the compressed name occupied.
pub open spec fn spec_resolve(comp: Seq<u8>, full: Seq<u8>) -> Result<(Seq<u8>, int), DnsError> {
    match spec_resolve_from(comp, 0, full) {
        Ok(pr) => Ok((pr.0 + seq![0u8], pr.1)),
        Err(e) => Err(e),
    }
}

/// Resolves one possibly-compressed domain name.  `compressed_name` is the
/// tail of the datagram at which the name starts; `entire_message` is the
/// whole datagram, against which pointer offsets are interpreted.  Returns
/// the uncompressed wire label sequence, terminator included, together with
/// the number of bytes consumed from `compressed_name` — the two differ
/// whenever a pointer is involved, and the consumed count is what tells the
/// caller where the next field of the record begins.
pub fn decompress_domain_name(compressed_name: &[u8], entire_message: &[u8]) -> (r: Result<
    (Vec<u8>, usize),
    DnsError,
>)
    ensures
        match r {
            Ok(pr) => spec_resolve(compressed_name@, entire_message@) == Ok::<(Seq<u8>, int), DnsError>(
                (pr.0@, pr.1 as int),
            ),
            Err(e) => spec_resolve(compressed_name@, entire_message@) == Err::<(Seq<u8>, int), DnsError>(e),
        },
{
    let clen = compressed_name.len();
    let flen = entire_message.len();
    let mut out: Vec<u8> = Vec::new();
    let mut pos: usize = 0;
    proof {
        match spec_resolve_from(compressed_name@, 0, entire_message@) {
            Ok(pr) => {
                assert(Seq::<u8>::empty() + pr.0 =~= pr.0);
            },
            Err(_) => {},
        }
    }
    loop
        invariant
            pos <= clen,
            clen == compressed_name@.len(),
            flen == entire_message@.len(),
            match spec_resolve_from(compressed_name@, pos as int, entire_message@) {
                Ok(pr) => spec_resolve_from(compressed_name@, 0, entire_message@) == Ok::<
                    (Seq<u8>, int),
                    DnsError,
                >((out@ + pr.0, pr.1)),
                Err(e) => spec_resolve_from(compressed_name@, 0, entire_message@) == Err::<
                    (Seq<u8>, int),
                    DnsError,
                >(e),
            },
        decreases clen - pos,
    {
        if pos >= clen {
            return Err(DnsError::TruncatedRecord);
        }
        let b = compressed_name[pos];
        if b == 0 {
            let ghost out_before = out@;
            out.push(0);
            proof {
                assert(spec_resolve_from(compressed_name@, pos as int, entire_message@) == Ok::<
                    (Seq<u8>, int),
                    DnsError,
                >((Seq::empty(), pos + 1)));
                assert(out_before + Seq::<u8>::empty() + seq![0u8] =~= out@);
            }
            return Ok((out, pos + 1));
        }
        if b >= 192 {
            if pos + 1 >= clen {
                return Err(DnsError::TruncatedRecord);
            }
            let off = ((b - 192) as usize) * 256 + compressed_name[pos + 1] as usize;
            if off >= flen {
                return Err(DnsError::MalformedPointer);
            }
            let ghost target = spec_labels_at(
                entire_message@,
                off as int,
                MAX_POINTER_HOPS as nat,
            );
            let mut ptr_out: Vec<u8> = Vec::new();
            let mut fpos: usize = off;
            let mut hops_left: usize = MAX_POINTER_HOPS;
            proof {
                match target {
                    Ok(ls) => {
                        assert(Seq::<u8>::empty() + ls =~= ls);
                    },
                    Err(_) => {},
                }
            }
            loop
                invariant
                    flen == entire_message@.len(),
                    fpos <= flen,
                    target == spec_labels_at(
                        entire_message@,
                        off as int,
                        MAX_POINTER_HOPS as nat,
                    ),
                    match spec_labels_at(entire_message@, fpos as int, hops_left as nat) {
                        Ok(ls) => target == Ok::<Seq<u8>, DnsError>(ptr_out@ + ls),
                        Err(e) => target == Err::<Seq<u8>, DnsError>(e),
                    },
                    match target {
                        Ok(_) => true,
                        Err(e) => spec_resolve(compressed_name@, entire_message@) == Err::<
                            (Seq<u8>, int),
                            DnsError,
                        >(e),
                    },
                ensures
                    target == Ok::<Seq<u8>, DnsError>(ptr_out@),
                decreases hops_left, flen - fpos,
            {
                if fpos >= flen {
                    return Err(DnsError::TruncatedRecord);
                }
                let fb = entire_message[fpos];
                if fb == 0 {
                    proof {
                        assert(ptr_out@ + Seq::<u8>::empty() =~= ptr_out@);
                    }
                    break ;
                }
                if fb >= 192 {
                    if fpos + 1 >= flen {
                        return Err(DnsError::TruncatedRecord);
                    }
                    if hops_left == 0 {
                        return Err(DnsError::PointerLoop);
                    }
                    let off2 = ((fb - 192) as usize) * 256 + entire_message[fpos + 1] as usize;
                    if off2 >= flen {
                        return Err(DnsError::MalformedPointer);
                    }
                    fpos = off2;
                    hops_left = hops_left - 1;
                } else {
                    let blen = fb as usize;
                    if blen > flen - fpos - 1 {
                        return Err(DnsError::TruncatedRecord);
                    }
                    let ghost ptr_mid = ptr_out@;
                    ptr_out.push(fb);
                    let end = fpos + 1 + blen;
                    let mut t = fpos + 1;
                    while t < end
                        invariant
                            flen == entire_message@.len(),
                            fpos + 1 <= t <= end <= flen,
                            ptr_out@ == ptr_mid + seq![fb] + entire_message@.subrange(
                                fpos + 1,
                                t as int,
                            ),
                        decreases end - t,
                    {
                        ptr_out.push(entire_message[t]);
                        proof {
                            assert(ptr_out@ =~= ptr_mid + seq![fb] + entire_message@.subrange(
                                fpos + 1,
                                t + 1,
                            ));
                        }
                        t += 1;
                    }
                    proof {
                        match spec_labels_at(entire_message@, end as int, hops_left as nat) {
                            Ok(rest) => {
                                assert(ptr_mid + (seq![fb] + entire_message@.subrange(
                                    fpos + 1,
                                    end as int,
                                ) + rest) =~= ptr_out@ + rest);
                            },
                            Err(_) => {},
                        }
                    }
                    fpos = end;
                }
            }
            let ghost out_before = out@;
            let ghost ptr_seq = ptr_out@;
            out.append(&mut ptr_out);
            out.push(0);
            proof {
                assert(spec_resolve_from(compressed_name@, pos as int, entire_message@) == Ok::<
                    (Seq<u8>, int),
                    DnsError,
                >((ptr_seq, pos + 2)));
                assert(out_before + ptr_seq + seq![0u8] =~= out@);
            }
            return Ok((out, pos + 2));
        }
        let blen = b as usize;
        if blen > clen - pos - 1 {
            return Err(DnsError::TruncatedRecord);
        }
        let ghost out_mid = out@;
        out.push(b);
        let end = pos + 1 + blen;
        let mut t = pos + 1;
        while t < end
            invariant
                clen == compressed_name@.len(),
                pos + 1 <= t <= end <= clen,
                out@ == out_mid + seq![b] + compressed_name@.subrange(pos + 1, t as int),
            decreases end - t,
        {
            out.push(compressed_name[t]);
            proof {
                assert(out@ =~= out_mid + seq![b] + compressed_name@.subrange(pos + 1, t + 1));
            }
            t += 1;
        }
        proof {
            match spec_resolve_from(compressed_name@, end as int, entire_message@) {
                Ok(pr) => {
                    assert(out_mid + (seq![b] + compressed_name@.subrange(pos + 1, end as int)
                        + pr.0) =~= out@ + pr.0);
                },
                Err(_) => {},
            }
        }
        pos = end;
    }
}

// ---------------------------------------------------------------------------
// Well-formed uncompressed wire names
// ---------------------------------------------------------------------------
/// A well-formed uncompressed wire name: labels whose length bytes are
/// ordinary (1 to 191) and fully present, with the zero terminator as the
/// very last byte.  This is the shape [`decompress_domain_name`] produces,
/// and the shape it reads back without consulting any pointer.
pub open spec fn wire_name_wf(w: Seq<u8>) -> bool
    decreases w.len(),
{
    &&& w.len() >= 1
    &&& if w[0] == 0 {
        w.len() == 1
    } else {
        &&& 1 <= w[0] <= 191
        &&& w.len() >= w[0] + 2
        &&& wire_name_wf(w.skip(w[0] as int + 1))
    }
}

/// A well-formed wire name ends with its terminator.
pub proof fn lemma_wire_name_wf_last(w: Seq<u8>)
    requires
        wire_name_wf(w),
    ensures
        w[w.len() - 1] == 0,
    decreases w.len(),
{
    if w[0] != 0 {
        lemma_wire_name_wf_last(w.skip(w[0] as int + 1));
    }
}

/// Whatever labels a successful pointer chase collects, followed by the
/// terminator, is a well-formed wire name.
pub proof fn lemma_labels_at_wf(full: Seq<u8>, pos: int, hops: nat)
    requires
        spec_labels_at(full, pos, hops) is Ok,
    ensures
        wire_name_wf(spec_labels_at(full, pos, hops)->Ok_0 + seq![0u8]),
    decreases hops, full.len() - pos,
{
    let b = full[pos];
    if b == 0 {
    } else if b >= 192 {
        let off = (b - 192) * 256 + full[pos + 1];
        lemma_labels_at_wf(full, off as int, (hops - 1) as nat);
    } else {
        lemma_labels_at_wf(full, pos + 1 + b, hops);
        let rest = spec_labels_at(full, pos + 1 + b, hops)->Ok_0;
        let ls = spec_labels_at(full, pos, hops)->Ok_0;
        let w = ls + seq![0u8];
        assert(ls =~= seq![b] + full.subrange(pos + 1, pos + 1 + b) + rest);
        assert(w[0] == b);
        assert(w.len() == 1 + b + rest.len() + 1);
        assert(w.skip(b as int + 1) =~= rest + seq![0u8]);
    }
}

/// Whatever a successful resolution collects is a well-formed wire name, and
/// the consumed count stays within the compressed slice.
pub proof fn lemma_resolve_from_wf(comp: Seq<u8>, pos: int, full: Seq<u8>)
    requires
        spec_resolve_from(comp, pos, full) is Ok,
    ensures
        wire_name_wf(spec_resolve_from(comp, pos, full)->Ok_0.0 + seq![0u8]),
        pos + 1 <= spec_resolve_from(comp, pos, full)->Ok_0.1 <= comp.len(),
    decreases comp.len() - pos,
{
    let b = comp[pos];
    if b == 0 {
        assert((Seq::<u8>::empty() + seq![0u8])[0] == 0);
        assert((Seq::<u8>::empty() + seq![0u8]).len() == 1);
    } else if b >= 192 {
        let off = (b - 192) * 256 + comp[pos + 1];
        lemma_labels_at_wf(full, off as int, MAX_POINTER_HOPS as nat);
    } else {
        lemma_resolve_from_wf(comp, pos + 1 + b, full);
        let pr = spec_resolve_from(comp, pos + 1 + b, full)->Ok_0;
        let ls = spec_resolve_from(comp, pos, full)->Ok_0.0;
        let w = ls + seq![0u8];
        assert(ls =~= seq![b] + comp.subrange(pos + 1, pos + 1 + b) + pr.0);
        assert(w[0] == b);
        assert(w.len() == 1 + b + pr.0.len() + 1);
        assert(w.skip(b as int + 1) =~= pr.0 + seq![0u8]);
    }
}

/// What [`decompress_domain_name`] hands back is a well-formed wire name and
/// a consumed count between 1 and the length of the compressed slice.
pub proof fn lemma_resolve_wf(comp: Seq<u8>, full: Seq<u8>)
    requires
        spec_resolve(comp, full) is Ok,
    ensures
        wire_name_wf(spec_resolve(comp, full)->Ok_0.0),
        1 <= spec_resolve(comp, full)->Ok_0.1 <= comp.len(),
        spec_resolve(comp, full)->Ok_0.0.len() >= 1,
{
    lemma_resolve_from_wf(comp, 0, full);
}

/// A well-formed wire name lying (pointerless) at `pos` of the full message
/// is what the pointer chase finds there, whatever the hop budget.
pub proof fn lemma_labels_at_of_wf(full: Seq<u8>, pos: int, w: Seq<u8>, hops: nat)
    requires
        wire_name_wf(w),
        0 <= pos,
        pos + w.len() <= full.len(),
        full.subrange(pos, pos + w.len()) == w,
    ensures
        spec_labels_at(full, pos, hops) == Ok::<Seq<u8>, DnsError>(w.take(w.len() - 1)),
    decreases w.len(),
{
    assert(full[pos] == w[0]);
    if w[0] == 0 {
        assert(w.take(w.len() - 1) =~= Seq::<u8>::empty());
    } else {
        let b = w[0];
        let rest = w.skip(b as int + 1);
        assert(full.subrange(pos + 1 + b, pos + 1 + b + rest.len()) =~= rest);
        lemma_labels_at_of_wf(full, pos + 1 + b, rest, hops);
        assert(full.subrange(pos + 1, pos + 1 + b) =~= w.subrange(1, 1 + b));
        assert(seq![b] + w.subrange(1, 1 + b) + rest.take(rest.len() - 1) =~= w.take(
            w.len() - 1,
        ));
    }
}

/// A well-formed wire name lying at `pos` of the compressed slice resolves to
/// itself: no pointer is consulted, and exactly its own bytes are consumed.
pub proof fn lemma_resolve_from_of_wf(comp: Seq<u8>, pos: int, w: Seq<u8>, full: Seq<u8>)
    requires
        wire_name_wf(w),
        0 <= pos,
        pos + w.len() <= comp.len(),
        comp.subrange(pos, pos + w.len()) == w,
    ensures
        spec_resolve_from(comp, pos, full) == Ok::<(Seq<u8>, int), DnsError>(
            (w.take(w.len() - 1), pos + w.len()),
        ),
    decreases w.len(),
{
    assert(comp[pos] == w[0]);
    if w[0] == 0 {
        assert(w.take(w.len() - 1) =~= Seq::<u8>::empty());
    } else {
        let b = w[0];
        let rest = w.skip(b as int + 1);
        assert(comp.subrange(pos + 1 + b, pos + 1 + b + rest.len()) =~= rest);
        lemma_resolve_from_of_wf(comp, pos + 1 + b, rest, full);
        assert(comp.subrange(pos + 1, pos + 1 + b) =~= w.subrange(1, 1 + b));
        assert(seq![b] + w.subrange(1, 1 + b) + rest.take(rest.len() - 1) =~= w.take(
            w.len() - 1,
        ));
    }
}

/// Top-level form of the above: resolving a buffer that begins with a
/// well-formed wire name yields that name and consumes its length.
pub proof fn lemma_resolve_of_wf(comp: Seq<u8>, w: Seq<u8>, full: Seq<u8>)
    requires
        wire_name_wf(w),
        w.len() <= comp.len(),
        comp.subrange(0, w.len() as int) == w,
    ensures
        spec_resolve(comp, full) == Ok::<(Seq<u8>, int), DnsError>((w, w.len() as int)),
{
    lemma_resolve_from_of_wf(comp, 0, w, full);
    lemma_wire_name_wf_last(w);
    assert(w.take(w.len() - 1) + seq![0u8] =~= w);
}

/// A well-formed wire name always decodes, and the resulting dotted name has
/// only characters that fit a byte and segments of at most 191 characters.
pub proof fn lemma_wf_wire_decodes(w: Seq<u8>)
    requires
        wire_name_wf(w),
    ensures
        spec_decode_from(w, 0) is Some,
        chars_fit(spec_decode_from(w, 0)->Some_0),
        segments_le(spec_decode_from(w, 0)->Some_0, 191),
    decreases w.len(),
{
    if w[0] == 0 {
        assert(spec_decode_from(w, 0) == Some(Seq::<char>::empty()));
        crate::label::lemma_segments_le_of_short(Seq::<char>::empty(), 191);
    } else {
        let b = w[0];
        let rest_wire = w.skip(b as int + 1);
        lemma_wf_wire_decodes(rest_wire);
        crate::label::lemma_decode_shift(w, b as int + 1, 0);
        let content = bytes_to_chars(w.subrange(1, 1 + b));
        lemma_bytes_chars_fit(w.subrange(1, 1 + b));
        lemma_segments_le_of_short(content, 191);
        let nm_rest = spec_decode_from(rest_wire, 0)->Some_0;
        if rest_wire.len() == 1 {
            assert(w.len() == b + 2);
            assert(spec_decode_from(w, b as int + 1) == Some(Seq::<char>::empty()));
            let nm = spec_decode_from(w, 0)->Some_0;
            assert(nm =~= content);
        } else {
            assert(w.len() > b + 2);
            let nm = spec_decode_from(w, 0)->Some_0;
            assert(nm == content + seq!['.'] + nm_rest);
            lemma_segments_le_concat(content, nm_rest, 191);
            assert(chars_fit(nm)) by {
                assert forall|i: int| 0 <= i < nm.len() implies ((#[trigger] nm[i]) as u32)
                    < 256 by {
                    if i < content.len() {
                        assert(nm[i] == content[i]);
                    } else if i == content.len() {
                        assert(nm[i] == '.');
                    } else {
                        assert(nm[i] == nm_rest[i - content.len() - 1]);
                    }
                }
            }
        }
    }
}


/// Compression across a message: when a well-formed wire name `w` lies at
/// offset `off` of the full message and a second name is encoded purely as a
/// two-byte pointer to `off`, resolving the pointer yields the identical
/// wire name — hence the identical dotted name — while consuming exactly the
/// pointer's 2 bytes, against the first name's own length.
pub proof fn lemma_compression_pointer(full: Seq<u8>, off: int, w: Seq<u8>, comp: Seq<u8>)
    requires
        wire_name_wf(w),
        0 <= off < 16384,
        off + w.len() <= full.len(),
        full.subrange(off, off + w.len()) == w,
        comp.len() >= 2,
        comp[0] == (192 + off / 256) as u8,
        comp[1] == (off % 256) as u8,
    ensures
        spec_resolve(comp, full) == Ok::<(Seq<u8>, int), DnsError>((w, 2)),
        spec_resolve(full.skip(off), full) == Ok::<(Seq<u8>, int), DnsError>(
            (w, w.len() as int),
        ),
{
    assert(comp[0] as int == 192 + off / 256);
    assert(comp[0] >= 192);
    assert((comp[0] - 192) * 256 + comp[1] == off);
    assert(off < full.len());
    lemma_labels_at_of_wf(full, off, w, MAX_POINTER_HOPS as nat);
    lemma_wire_name_wf_last(w);
    assert(w.take(w.len() - 1) + seq![0u8] =~= w);
    let tail = full.skip(off);
    assert(tail.subrange(0, w.len() as int) =~= w);
    lemma_resolve_of_wf(tail, w, full);
}


/// The wire form of a wire-safe name is a well-formed wire name: each
/// segment becomes an ordinary label, and the terminator comes last.
pub proof fn lemma_encode_wire_safe_wf(name: Seq<char>)
    requires
        wire_safe(name),
    ensures
        wire_name_wf(spec_encode_name(name)),
    decreases name.len(),
{
    let w = spec_encode_name(name);
    if name.len() == 0 {
        assert(w =~= seq![0u8]);
    } else {
        lemma_seg_len_le(name);
        let k = seg_len(name);
        let content = chars_to_bytes(name.take(k as int));
        assert(content.len() == k);
        if k == name.len() {
            assert(w =~= seq![k as u8] + content + seq![0u8]);
            assert(w[0] == k as u8);
            assert(w.len() == k + 2);
            assert(w.skip(k as int + 1) =~= seq![0u8]);
            assert(wire_name_wf(seq![0u8]));
        } else {
            let rest = name.skip(k as int + 1);
            assert(segments_wire_safe(rest));
            assert(rest.len() > 0) by {
                if rest.len() == 0 {
                    assert(seg_len(rest) == 0);
                    assert(!segments_wire_safe(rest));
                }
            }
            assert(chars_fit(rest)) by {
                assert forall|i: int| 0 <= i < rest.len() implies ((#[trigger] rest[i]) as u32)
                    < 256 by {
                    assert(rest[i] == name[i + k + 1]);
                }
            }
            lemma_encode_wire_safe_wf(rest);
            assert(spec_encode_name(rest) == spec_encode_segments(rest) + seq![0u8]);
            assert(w =~= seq![k as u8] + content + (spec_encode_segments(rest) + seq![0u8]));
            assert(w[0] == k as u8);
            assert(w.len() == 1 + k + spec_encode_segments(rest).len() + 1);
            assert(w.skip(k as int + 1) =~= spec_encode_name(rest));
        }
    }
}

} // verus!
