//! The domain-name codec: length-prefixed labels, the zero terminator,
//! and compression pointers that jump back into the message buffer.
//!
//! In memory a name is the labels joined by `.`; the empty name is the
//! empty byte string.  On the wire each label is one length byte (1 to 63)
//! followed by that many raw bytes, and the name ends with a zero length
//! byte.  A length byte whose top two bits are `11` is instead a pointer:
//! its low 6 bits and the following byte form an offset from the start of
//! the message where the rest of the name continues.
//!
//! The decoder follows any in-bounds pointer, forwards or backwards, but
//! caps the number of hops at the length of the message buffer.  Each hop
//! lands on one of the buffer's offsets, so a chain with more hops than
//! the buffer has bytes must revisit an offset — and decoding from a fixed
//! offset is deterministic, so a revisiting chain cycles forever.  Hitting
//! the cap is therefore reported as [`DnsError::NameDecodeLoop`], and the
//! remaining hop budget is the decoder's termination measure.

use vstd::prelude::*;

use crate::error::DnsError;

verus! {

/// The byte that separates labels in the in-memory form of a name.
pub const DOT: u8 = 0x2e;

/// The index of the first `.` at or after `i`, or `s.len()` if there is none.
pub open spec fn first_dot_from(s: Seq<u8>, i: int) -> int
    decreases s.len() - i,
{
    if i < 0 || i >= s.len() {
        s.len() as int
    } else if s[i] == DOT {
        i
    } else {
        first_dot_from(s, i + 1)
    }
}

pub proof fn lemma_first_dot_from(s: Seq<u8>, i: int)
    requires
        0 <= i <= s.len(),
    ensures
        i <= first_dot_from(s, i) <= s.len(),
        forall|k: int| i <= k < first_dot_from(s, i) ==> s[k] != DOT,
        first_dot_from(s, i) < s.len() ==> s[first_dot_from(s, i)] == DOT,
    decreases s.len() - i,
{
    if i < s.len() && s[i] != DOT {
        lemma_first_dot_from(s, i + 1);
    }
}

/// The dotted form is well shaped from position `i` on: every label
/// (maximal dot-free run) is between 1 and 63 bytes long.
pub open spec fn wf_name_from(name: Seq<u8>, i: int) -> bool
    decreases name.len() - i,
{
    let j = first_dot_from(name, i);
    1 <= j - i <= 63 && (j == name.len() || {
        proof {
            if 0 <= i <= name.len() {
                lemma_first_dot_from(name, i);
            }
        }
        wf_name_from(name, j + 1)
    })
}

/// A name in dotted form can be carried on the wire exactly when it is
/// empty or all its labels have 1 to 63 bytes.
pub open spec fn wf_name(name: Seq<u8>) -> bool {
    name.len() == 0 || wf_name_from(name, 0)
}

/// The wire encoding of `name` from position `i` on: one length-prefixed
/// label per dot-separated segment, closed by a zero byte.
pub open spec fn spec_encode_from(name: Seq<u8>, i: int) -> Result<Seq<u8>, DnsError>
    decreases name.len() - i,
{
    let j = first_dot_from(name, i);
    if j - i > 63 {
        Err(DnsError::LabelTooLong)
    } else {
        let piece = seq![(j - i) as u8] + name.subrange(i, j);
        if j >= name.len() {
            Ok(piece + seq![0u8])
        } else {
            proof {
                if 0 <= i <= name.len() {
                    lemma_first_dot_from(name, i);
                }
            }
            match spec_encode_from(name, j + 1) {
                Ok(rest) => Ok(piece + rest),
                Err(e) => Err(e),
            }
        }
    }
}

/// The wire encoding of a whole name; the empty name is just the terminator.
pub open spec fn spec_encode_name(name: Seq<u8>) -> Result<Seq<u8>, DnsError> {
    if name.len() == 0 {
        Ok(seq![0u8])
    } else {
        spec_encode_from(name, 0)
    }
}

/// Decoding a name of `msg` at position `pos` with `fuel` pointer hops
/// left: the dotted name and the position just past it in the sequential
/// stream (just past the first pointer, when the name jumps elsewhere).
/// A pointer aimed outside the buffer is `InvalidNamePointer`; one met
/// with no hop budget left is `NameDecodeLoop`.
pub open spec fn spec_decode_name(msg: Seq<u8>, pos: int, fuel: nat) -> Result<
    (Seq<u8>, int),
    DnsError,
>
    decreases fuel, msg.len() - pos,
{
    if pos < 0 || pos >= msg.len() {
        Err(DnsError::InvalidNamePointer)
    } else {
        let len = msg[pos];
        if len == 0 {
            Ok((Seq::empty(), pos + 1))
        } else if len >= 0xc0 {
            if pos + 1 >= msg.len() {
                Err(DnsError::InvalidNamePointer)
            } else {
                let target = (len - 0xc0) * 0x100 + msg[pos + 1];
                if target >= msg.len() {
                    Err(DnsError::InvalidNamePointer)
                } else if fuel == 0 {
                    Err(DnsError::NameDecodeLoop)
                } else {
                    match spec_decode_name(msg, target as int, (fuel - 1) as nat) {
                        Ok((name, _)) => Ok((name, pos + 2)),
                        Err(e) => Err(e),
                    }
                }
            }
        } else if len >= 0x40 {
            Err(DnsError::InvalidNamePointer)
        } else if pos + 1 + len > msg.len() {
            Err(DnsError::InvalidNamePointer)
        } else {
            let label = msg.subrange(pos + 1, pos + 1 + len);
            match spec_decode_name(msg, pos + 1 + len, fuel) {
                Ok((rest, end)) => Ok(
                    (if rest.len() == 0 { label } else { label + seq![DOT] + rest }, end),
                ),
                Err(e) => Err(e),
            }
        }
    }
}

/// The name found at position `pos` of `msg`, with the hop budget of a
/// whole buffer.  Any chain that terminates at all hops to fewer distinct
/// offsets than the buffer has bytes, so the budget never cuts one short;
/// a chain that exhausts it has revisited an offset and would cycle
/// forever.
pub open spec fn spec_name_at(msg: Seq<u8>, pos: int) -> Result<(Seq<u8>, int), DnsError> {
    spec_decode_name(msg, pos, msg.len())
}

/// The mathematical image of an executable decode result.
pub open spec fn decoded_view(r: Result<(Vec<u8>, usize), DnsError>) -> Result<
    (Seq<u8>, int),
    DnsError,
> {
    match r {
        Ok(p) => Ok((p.0@, p.1 as int)),
        Err(e) => Err(e),
    }
}

/// The mathematical image of an executable encode result.
pub open spec fn encoded_view(r: Result<Vec<u8>, DnsError>) -> Result<Seq<u8>, DnsError> {
    match r {
        Ok(v) => Ok(v@),
        Err(e) => Err(e),
    }
}

/// A successful decode lands strictly past where it started and never past
/// the end of the buffer.
pub proof fn lemma_decode_name_bounds(msg: Seq<u8>, pos: int, fuel: nat)
    requires
        spec_decode_name(msg, pos, fuel) matches Ok(_),
    ensures
        spec_decode_name(msg, pos, fuel) matches Ok((name, end)) ==> pos < end <= msg.len(),
    decreases fuel, msg.len() - pos,
{
    if 0 <= pos < msg.len() {
        let len = msg[pos];
        if len == 0 {
        } else if len >= 0xc0 {
            if pos + 1 < msg.len() {
                let target = (len - 0xc0) * 0x100 + msg[pos + 1];
                if target < msg.len() && fuel > 0 {
                    lemma_decode_name_bounds(msg, target as int, (fuel - 1) as nat);
                }
            }
        } else if len < 0x40 && pos + 1 + len <= msg.len() {
            lemma_decode_name_bounds(msg, pos + 1 + len, fuel);
        }
    }
}

/// More hop budget never changes a decode that succeeds: the budget only
/// decides where a cycling chain is cut off.
pub proof fn lemma_decode_fuel_mono(msg: Seq<u8>, pos: int, f1: nat, f2: nat)
    requires
        f1 <= f2,
        spec_decode_name(msg, pos, f1) matches Ok(_),
    ensures
        spec_decode_name(msg, pos, f2) == spec_decode_name(msg, pos, f1),
{
    lemma_decode_fuel_mono_full(msg, pos, f1, f2);
}

/// The pointer hops a successful decode takes (0 on the error branches,
/// where it is not meaningful).
spec fn spec_hops(msg: Seq<u8>, pos: int, fuel: nat) -> nat
    decreases fuel, msg.len() - pos,
{
    if pos < 0 || pos >= msg.len() {
        0
    } else {
        let len = msg[pos];
        if len == 0 {
            0
        } else if len >= 0xc0 {
            if pos + 1 >= msg.len() {
                0
            } else {
                let target = (len - 0xc0) * 0x100 + msg[pos + 1];
                if target >= msg.len() {
                    0
                } else if fuel == 0 {
                    0
                } else {
                    spec_hops(msg, target as int, (fuel - 1) as nat) + 1
                }
            }
        } else if len >= 0x40 {
            0
        } else if pos + 1 + len > msg.len() {
            0
        } else {
            spec_hops(msg, pos + 1 + len, fuel)
        }
    }
}

/// The offsets a decode's pointer hops land on (empty on the error
/// branches, where it is not meaningful).
spec fn spec_targets(msg: Seq<u8>, pos: int, fuel: nat) -> Set<int>
    decreases fuel, msg.len() - pos,
{
    if pos < 0 || pos >= msg.len() {
        Set::empty()
    } else {
        let len = msg[pos];
        if len == 0 {
            Set::empty()
        } else if len >= 0xc0 {
            if pos + 1 >= msg.len() {
                Set::empty()
            } else {
                let target = (len - 0xc0) * 0x100 + msg[pos + 1];
                if target >= msg.len() {
                    Set::empty()
                } else if fuel == 0 {
                    Set::empty()
                } else {
                    spec_targets(msg, target as int, (fuel - 1) as nat).insert(target as int)
                }
            }
        } else if len >= 0x40 {
            Set::empty()
        } else if pos + 1 + len > msg.len() {
            Set::empty()
        } else {
            spec_targets(msg, pos + 1 + len, fuel)
        }
    }
}

proof fn lemma_decode_fuel_mono_full(msg: Seq<u8>, pos: int, f1: nat, f2: nat)
    requires
        f1 <= f2,
        spec_decode_name(msg, pos, f1) matches Ok(_),
    ensures
        spec_decode_name(msg, pos, f2) == spec_decode_name(msg, pos, f1),
        spec_hops(msg, pos, f2) == spec_hops(msg, pos, f1),
        spec_targets(msg, pos, f2) == spec_targets(msg, pos, f1),
    decreases f1, msg.len() - pos,
{
    if 0 <= pos < msg.len() {
        let len = msg[pos];
        if len == 0 {
        } else if len >= 0xc0 {
            if pos + 1 < msg.len() {
                let target = (len - 0xc0) * 0x100 + msg[pos + 1];
                if target < msg.len() && f1 > 0 {
                    lemma_decode_fuel_mono_full(
                        msg,
                        target as int,
                        (f1 - 1) as nat,
                        (f2 - 1) as nat,
                    );
                }
            }
        } else if len < 0x40 && pos + 1 + len <= msg.len() {
            lemma_decode_fuel_mono_full(msg, pos + 1 + len, f1, f2);
        }
    }
}

proof fn lemma_target_has_smaller_fuel(msg: Seq<u8>, pos: int, fuel: nat, x: int)
    requires
        spec_decode_name(msg, pos, fuel) matches Ok(_),
        spec_targets(msg, pos, fuel).contains(x),
    ensures
        exists|g: nat| g < fuel && (#[trigger] spec_decode_name(msg, x, g)) matches Ok(_),
    decreases fuel, msg.len() - pos,
{
    if 0 <= pos < msg.len() {
        let len = msg[pos];
        if len == 0 {
        } else if len >= 0xc0 {
            if pos + 1 < msg.len() {
                let target = (len - 0xc0) * 0x100 + msg[pos + 1];
                if target < msg.len() && fuel > 0 {
                    if x == target {
                        assert(spec_decode_name(msg, x, (fuel - 1) as nat) matches Ok(_));
                    } else {
                        lemma_target_has_smaller_fuel(msg, target as int, (fuel - 1) as nat, x);
                        let g = choose|g: nat|
                            g < (fuel - 1) as nat && (#[trigger] spec_decode_name(
                                msg,
                                x,
                                g,
                            )) matches Ok(_);
                        assert(g < fuel && spec_decode_name(msg, x, g) matches Ok(_));
                    }
                }
            }
        } else if len < 0x40 && pos + 1 + len <= msg.len() {
            lemma_target_has_smaller_fuel(msg, pos + 1 + len, fuel, x);
        }
    }
}

/// A successful decode never hops back to the offset it began at: reaching
/// the same offset twice would repeat forever, since decoding from a fixed
/// offset is deterministic.
proof fn lemma_chain_avoids_start(msg: Seq<u8>, pos: int, fuel: nat)
    requires
        spec_decode_name(msg, pos, fuel) matches Ok(_),
    ensures
        !spec_targets(msg, pos, fuel).contains(pos),
    decreases fuel,
{
    if spec_targets(msg, pos, fuel).contains(pos) {
        lemma_target_has_smaller_fuel(msg, pos, fuel, pos);
        let g = choose|g: nat|
            g < fuel && (#[trigger] spec_decode_name(msg, pos, g)) matches Ok(_);
        lemma_decode_fuel_mono_full(msg, pos, g, fuel);
        lemma_chain_avoids_start(msg, pos, g);
        assert(false);
    }
}

proof fn lemma_hops_count_targets(msg: Seq<u8>, pos: int, fuel: nat)
    requires
        spec_decode_name(msg, pos, fuel) matches Ok(_),
    ensures
        spec_targets(msg, pos, fuel).finite(),
        forall|x: int| spec_targets(msg, pos, fuel).contains(x) ==> 0 <= x < msg.len(),
        spec_hops(msg, pos, fuel) == spec_targets(msg, pos, fuel).len(),
    decreases fuel, msg.len() - pos,
{
    if 0 <= pos < msg.len() {
        let len = msg[pos];
        if len == 0 {
        } else if len >= 0xc0 {
            if pos + 1 < msg.len() {
                let target = (len - 0xc0) * 0x100 + msg[pos + 1];
                if target < msg.len() && fuel > 0 {
                    lemma_hops_count_targets(msg, target as int, (fuel - 1) as nat);
                    lemma_chain_avoids_start(msg, target as int, (fuel - 1) as nat);
                }
            }
        } else if len < 0x40 && pos + 1 + len <= msg.len() {
            lemma_hops_count_targets(msg, pos + 1 + len, fuel);
        }
    }
}

proof fn lemma_decode_exact_fuel(msg: Seq<u8>, pos: int, fuel: nat)
    requires
        spec_decode_name(msg, pos, fuel) matches Ok(_),
    ensures
        spec_decode_name(msg, pos, spec_hops(msg, pos, fuel)) == spec_decode_name(msg, pos, fuel),
    decreases fuel, msg.len() - pos,
{
    if 0 <= pos < msg.len() {
        let len = msg[pos];
        if len == 0 {
        } else if len >= 0xc0 {
            if pos + 1 < msg.len() {
                let target = (len - 0xc0) * 0x100 + msg[pos + 1];
                if target < msg.len() && fuel > 0 {
                    lemma_decode_exact_fuel(msg, target as int, (fuel - 1) as nat);
                    assert(spec_hops(msg, pos, fuel) == spec_hops(
                        msg,
                        target as int,
                        (fuel - 1) as nat,
                    ) + 1);
                }
            }
        } else if len < 0x40 && pos + 1 + len <= msg.len() {
            lemma_decode_exact_fuel(msg, pos + 1 + len, fuel);
        }
    }
}

/// The hop budget of `spec_name_at` never cuts a terminating chain short:
/// a chain that decodes at all hops to distinct offsets, none of them its
/// own start, so it takes fewer hops than the buffer has bytes.
pub proof fn lemma_name_at_within_budget(msg: Seq<u8>, pos: int)
    requires
        spec_name_at(msg, pos) matches Ok(_),
    ensures
        msg.len() >= 1,
        spec_decode_name(msg, pos, (msg.len() - 1) as nat) == spec_name_at(msg, pos),
{
    let f = msg.len();
    assert(0 <= pos < msg.len());
    lemma_hops_count_targets(msg, pos, f);
    lemma_chain_avoids_start(msg, pos, f);
    let ts = spec_targets(msg, pos, f);
    let range = vstd::set_lib::set_int_range(0, msg.len() as int);
    vstd::set_lib::lemma_int_range(0, msg.len() as int);
    assert(ts.subset_of(range.remove(pos))) by {
        assert forall|x: int| ts.contains(x) implies range.remove(pos).contains(x) by {
            assert(0 <= x < msg.len());
            assert(x != pos);
        }
    }
    assert(range.remove(pos).len() == msg.len() - 1);
    vstd::set_lib::lemma_len_subset(ts, range.remove(pos));
    assert(spec_hops(msg, pos, f) <= msg.len() - 1);
    lemma_decode_exact_fuel(msg, pos, f);
    lemma_decode_fuel_mono_full(msg, pos, spec_hops(msg, pos, f), (msg.len() - 1) as nat);
    lemma_decode_fuel_mono_full(msg, pos, spec_hops(msg, pos, f), msg.len());
}

proof fn lemma_wf_from_encode_ok(name: Seq<u8>, i: int)
    requires
        0 <= i < name.len(),
        wf_name_from(name, i),
    ensures
        spec_encode_from(name, i) matches Ok(_),
    decreases name.len() - i,
{
    let j = first_dot_from(name, i);
    lemma_first_dot_from(name, i);
    if j < name.len() {
        assert(wf_name_from(name, j + 1));
        if j + 1 == name.len() {
            assert(first_dot_from(name, j + 1) == name.len() as int);
            assert(false);
        }
        lemma_wf_from_encode_ok(name, j + 1);
    }
}

/// Every well-formed dotted name has a wire encoding: no label is too long.
pub proof fn lemma_wf_name_encode_ok(name: Seq<u8>)
    requires
        wf_name(name),
    ensures
        spec_encode_name(name) matches Ok(_),
{
    if name.len() != 0 {
        lemma_wf_from_encode_ok(name, 0);
    }
}

proof fn lemma_encoded_from_decodes(msg: Seq<u8>, pos: int, name: Seq<u8>, i: int, fuel: nat)
    requires
        0 <= i < name.len(),
        wf_name_from(name, i),
        spec_encode_from(name, i) matches Ok(enc) && 0 <= pos && pos + enc.len() <= msg.len()
            && msg.subrange(pos, pos + enc.len()) == enc,
    ensures
        spec_encode_from(name, i) matches Ok(enc) && spec_decode_name(msg, pos, fuel) == Ok::<
            (Seq<u8>, int),
            DnsError,
        >((name.subrange(i, name.len() as int), pos + enc.len())),
    decreases name.len() - i,
{
    let j = first_dot_from(name, i);
    lemma_first_dot_from(name, i);
    let enc = spec_encode_from(name, i)->Ok_0;
    let piece = seq![(j - i) as u8] + name.subrange(i, j);
    let lab = (j - i) as int;
    let win = msg.subrange(pos, pos + enc.len());
    assert(1 <= lab <= 63);
    assert(piece.len() == 1 + lab);
    if j == name.len() {
        assert(enc == piece + seq![0u8]);
        assert(msg[pos] == win[0] && win[0] == enc[0] && enc[0] == piece[0] && piece[0] == (lab
            as u8));
        assert forall|k: int|
            0 <= k < lab implies #[trigger] msg.subrange(pos + 1, pos + 1 + lab)[k]
                == name.subrange(i, j)[k] by {
            assert(msg.subrange(pos + 1, pos + 1 + lab)[k] == msg[pos + 1 + k]);
            assert(msg[pos + 1 + k] == win[1 + k]);
            assert(win[1 + k] == enc[1 + k]);
            assert(enc[1 + k] == piece[1 + k]);
            assert(piece[1 + k] == name.subrange(i, j)[k]);
        }
        assert(msg.subrange(pos + 1, pos + 1 + lab) =~= name.subrange(i, j));
        assert(msg[pos + 1 + lab] == win[1 + lab] && win[1 + lab] == enc[1 + lab] && enc[1 + lab]
            == 0);
        assert(spec_decode_name(msg, pos + 1 + lab, fuel) == Ok::<(Seq<u8>, int), DnsError>(
            (Seq::<u8>::empty(), pos + 1 + lab + 1),
        ));
        assert(name.subrange(i, name.len() as int) == name.subrange(i, j));
    } else {
        assert(wf_name_from(name, j + 1));
        if j + 1 == name.len() {
            assert(first_dot_from(name, j + 1) == name.len() as int);
            assert(false);
        }
        let rest_enc = spec_encode_from(name, j + 1)->Ok_0;
        assert(enc == piece + rest_enc);
        assert(msg[pos] == win[0] && win[0] == enc[0] && enc[0] == piece[0] && piece[0] == (lab
            as u8));
        assert forall|k: int|
            0 <= k < lab implies #[trigger] msg.subrange(pos + 1, pos + 1 + lab)[k]
                == name.subrange(i, j)[k] by {
            assert(msg.subrange(pos + 1, pos + 1 + lab)[k] == msg[pos + 1 + k]);
            assert(msg[pos + 1 + k] == win[1 + k]);
            assert(win[1 + k] == enc[1 + k]);
            assert(enc[1 + k] == piece[1 + k]);
            assert(piece[1 + k] == name.subrange(i, j)[k]);
        }
        assert(msg.subrange(pos + 1, pos + 1 + lab) =~= name.subrange(i, j));
        let pos2 = pos + 1 + lab;
        assert(msg.subrange(pos2, pos2 + rest_enc.len()) =~= rest_enc) by {
            assert forall|k: int| 0 <= k < rest_enc.len() implies msg[pos2 + k] == rest_enc[k] by {
                assert(msg[pos2 + k] == win[1 + lab + k]);
                assert(win[1 + lab + k] == enc[1 + lab + k]);
                assert(enc[1 + lab + k] == rest_enc[k]);
            }
        }
        lemma_encoded_from_decodes(msg, pos2, name, j + 1, fuel);
        let rest = name.subrange(j + 1, name.len() as int);
        assert(rest.len() >= 1);
        assert(name[j] == DOT);
        assert(name.subrange(i, j) + seq![DOT] + rest =~= name.subrange(i, name.len() as int));
    }
}

/// Round trip at the name level: a well-formed dotted name, embedded
/// anywhere in a message, decodes back to itself and consumes exactly its
/// own bytes — in particular when its terminator is the last byte of the
/// buffer, nothing past the buffer is read.
pub proof fn lemma_name_round_trip(msg: Seq<u8>, pos: int, name: Seq<u8>, fuel: nat)
    requires
        wf_name(name),
        0 <= pos,
        spec_encode_name(name) matches Ok(enc) ==> pos + enc.len() <= msg.len() && msg.subrange(
            pos,
            pos + enc.len(),
        ) == enc,
    ensures
        spec_encode_name(name) matches Ok(enc) && spec_decode_name(msg, pos, fuel) == Ok::<
            (Seq<u8>, int),
            DnsError,
        >((name, pos + enc.len())),
{
    lemma_wf_name_encode_ok(name);
    if name.len() == 0 {
        let enc = spec_encode_name(name)->Ok_0;
        assert(msg[pos] == enc[0]);
        assert(name =~= Seq::<u8>::empty());
    } else {
        lemma_encoded_from_decodes(msg, pos, name, 0, fuel);
        assert(name.subrange(0, name.len() as int) =~= name);
    }
}

/// Compression: a 2-byte pointer aimed anywhere in the buffer yields
/// exactly the name found at its target, and the sequential stream resumes
/// right after the pointer.
pub proof fn lemma_pointer_compression(msg: Seq<u8>, p: int, t: int, n: Seq<u8>, e: int)
    requires
        0 <= p,
        p + 1 < msg.len(),
        0 <= t < 0x4000,
        msg[p] == (0xc0 + t / 0x100) as u8,
        msg[p + 1] == (t % 0x100) as u8,
        spec_name_at(msg, t) == Ok::<(Seq<u8>, int), DnsError>((n, e)),
    ensures
        spec_name_at(msg, p) == Ok::<(Seq<u8>, int), DnsError>((n, p + 2)),
{
    assert(0 <= t / 0x100 < 0x40);
    assert(0 <= t % 0x100 < 0x100);
    assert(msg[p] as int == 0xc0 + t / 0x100);
    assert(msg[p + 1] as int == t % 0x100);
    assert((msg[p] - 0xc0) * 0x100 + msg[p + 1] == t) by {
        assert(t == 0x100 * (t / 0x100) + t % 0x100);
    }
    assert(0 <= t < msg.len());
    lemma_name_at_within_budget(msg, t);
}

/// Compression against an uncompressed target, unconditionally: a 2-byte
/// pointer aimed at the wire encoding of a well-formed dotted name yields
/// that name, exactly as decoding the uncompressed bytes does.
pub proof fn lemma_pointer_to_encoded_name(msg: Seq<u8>, p: int, t: int, name: Seq<u8>)
    requires
        0 <= p,
        p + 1 < msg.len(),
        0 <= t < msg.len(),
        t < 0x4000,
        msg[p] == (0xc0 + t / 0x100) as u8,
        msg[p + 1] == (t % 0x100) as u8,
        wf_name(name),
        spec_encode_name(name) matches Ok(enc) ==> t + enc.len() <= msg.len() && msg.subrange(
            t,
            t + enc.len(),
        ) == enc,
    ensures
        spec_encode_name(name) matches Ok(enc) && spec_name_at(msg, p) == Ok::<
            (Seq<u8>, int),
            DnsError,
        >((name, p + 2)) && spec_name_at(msg, t) == Ok::<(Seq<u8>, int), DnsError>(
            (name, t + enc.len()),
        ),
{
    lemma_wf_name_encode_ok(name);
    let enc = spec_encode_name(name)->Ok_0;
    lemma_name_round_trip(msg, t, name, msg.len());
    lemma_pointer_compression(msg, p, t, name, t + enc.len());
}

fn decode_rec(msg: &Vec<u8>, pos: usize, fuel: usize) -> (r: Result<(Vec<u8>, usize), DnsError>)
    ensures
        decoded_view(r) == spec_decode_name(msg@, pos as int, fuel as nat),
        r matches Ok(p) ==> pos < p.1 <= msg@.len(),
    decreases fuel, msg@.len() - pos,
{
    if pos >= msg.len() {
        return Err(DnsError::InvalidNamePointer);
    }
    let len = msg[pos];
    if len == 0 {
        Ok((Vec::new(), pos + 1))
    } else if len >= 0xc0 {
        if pos + 1 >= msg.len() {
            return Err(DnsError::InvalidNamePointer);
        }
        let target: usize = ((len - 0xc0) as usize) * 0x100 + (msg[pos + 1] as usize);
        if target >= msg.len() {
            return Err(DnsError::InvalidNamePointer);
        }
        if fuel == 0 {
            return Err(DnsError::NameDecodeLoop);
        }
        match decode_rec(msg, target, fuel - 1) {
            Ok((name, _)) => Ok((name, pos + 2)),
            Err(e) => Err(e),
        }
    } else if len >= 0x40 {
        Err(DnsError::InvalidNamePointer)
    } else if (len as usize) > msg.len() - pos - 1 {
        Err(DnsError::InvalidNamePointer)
    } else {
        let lab_len = len as usize;
        let lab_end: usize = pos + 1 + lab_len;
        let mut label: Vec<u8> = Vec::new();
        let mut k: usize = pos + 1;
        while k < lab_end
            invariant
                pos + 1 <= k <= lab_end,
                lab_end <= msg@.len(),
                label@ == msg@.subrange(pos + 1, k as int),
            decreases lab_end - k,
        {
            label.push(msg[k]);
            k = k + 1;
            proof {
                assert(label@ =~= msg@.subrange(pos + 1, k as int));
            }
        }
        match decode_rec(msg, lab_end, fuel) {
            Ok((mut rest, end)) => {
                if rest.len() == 0 {
                    Ok((label, end))
                } else {
                    let ghost rest_snap = rest@;
                    let mut name = label;
                    name.push(DOT);
                    name.append(&mut rest);
                    proof {
                        assert(name@ =~= msg@.subrange(pos + 1, lab_end as int) + seq![DOT]
                            + rest_snap);
                    }
                    Ok((name, end))
                }
            },
            Err(e) => Err(e),
        }
    }
}

/// Decode the name that begins at `pos`, returning its dotted form and the
/// position just past it in the sequential stream (just past the 2-byte
/// pointer, when the name jumps elsewhere).
pub fn decode(msg: &Vec<u8>, pos: usize) -> (r: Result<(Vec<u8>, usize), DnsError>)
    ensures
        decoded_view(r) == spec_name_at(msg@, pos as int),
        r matches Ok(p) ==> pos < p.1 <= msg@.len(),
{
    decode_rec(msg, pos, msg.len())
}

/// Encode a dotted name into length-prefixed wire labels.
pub fn encode(name: &Vec<u8>) -> (r: Result<Vec<u8>, DnsError>)
    ensures
        encoded_view(r) == spec_encode_name(name@),
{
    let n = name.len();
    let mut out: Vec<u8> = Vec::new();
    if n == 0 {
        out.push(0);
        proof {
            assert(out@ =~= seq![0u8]);
        }
        return Ok(out);
    }
    let mut i: usize = 0;
    loop
        invariant
            i <= n,
            n == name@.len(),
            n >= 1,
            (match spec_encode_from(name@, i as int) {
                Ok(rest) => spec_encode_from(name@, 0) == Ok::<Seq<u8>, DnsError>(out@ + rest),
                Err(e) => spec_encode_from(name@, 0) == Err::<Seq<u8>, DnsError>(e),
            }),
        decreases n - i,
    {
        let ghost out_start = out@;
        let mut j: usize = i;
        while j < n && name[j] != DOT
            invariant
                i <= j <= n,
                n == name@.len(),
                first_dot_from(name@, i as int) == first_dot_from(name@, j as int),
            decreases n - j,
        {
            j = j + 1;
        }
        proof {
            assert(first_dot_from(name@, i as int) == j as int);
        }
        if j - i > 63 {
            return Err(DnsError::LabelTooLong);
        }
        out.push((j - i) as u8);
        let ghost mid = out@;
        let mut k: usize = i;
        while k < j
            invariant
                i <= k <= j <= n,
                n == name@.len(),
                out@ == mid + name@.subrange(i as int, k as int),
            decreases j - k,
        {
            out.push(name[k]);
            k = k + 1;
            proof {
                assert(out@ =~= mid + name@.subrange(i as int, k as int));
            }
        }
        let ghost piece = seq![(j - i) as u8] + name@.subrange(i as int, j as int);
        proof {
            assert(out@ =~= out_start + piece);
        }
        if j == n {
            out.push(0);
            proof {
                assert(out@ =~= out_start + (piece + seq![0u8]));
            }
            return Ok(out);
        }
        proof {
            let spec_next = spec_encode_from(name@, j + 1 as int);
            match spec_next {
                Ok(rest) => {
                    assert(out_start + (piece + rest) =~= out@ + rest);
                },
                Err(_) => {},
            }
        }
        i = j + 1;
    }
}

} // verus!
