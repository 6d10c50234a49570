//! Domain names: dotted in-memory form and length-prefixed wire form.
//!
//! In memory a name is the byte sequence of its labels joined by literal
//! dots (`b"example.com"`); the empty sequence is the root name.  On the
//! wire each label is prefixed by its length byte and the name ends with a
//! zero byte, or with a 14-bit compression pointer: a length byte whose two
//! high bits are both set, combined with the next byte, is an absolute
//! offset from the start of the message where the remainder of the name
//! continues.  Decoding follows pointers; encoding never produces them.

use vstd::prelude::*;

verus! {

/// The byte that separates labels in the dotted in-memory form.
pub const DOT: u8 = 46;

/// The longest label the wire form can carry: a longer length byte would
/// collide with the pointer tag in its two high bits.
pub const MAX_LABEL_LEN: usize = 191;

/// A length byte whose two high bits are both set starts a pointer.
pub open spec fn is_pointer_byte(b: u8) -> bool {
    b & 0xC0 == 0xC0
}

/// The absolute offset a two-byte pointer refers to: the low 14 bits.
pub open spec fn ptr_target(b0: u8, b1: u8) -> int {
    (b0 & 0x3F) * 256 + b1
}

/// Joins two dotted names, with a dot only between two nonempty parts.
pub open spec fn dot_join(a: Seq<u8>, b: Seq<u8>) -> Seq<u8> {
    if a.len() == 0 {
        b
    } else if b.len() == 0 {
        a
    } else {
        a + seq![DOT] + b
    }
}

/// The name decoded at `pos`, and how many bytes of the original stream it
/// consumed: labels are read until a zero byte (consumed, one byte) or a
/// pointer (consumed, two bytes; the decoder jumps to the pointer's target,
/// decodes the continuation there and stops, so the bytes at the target do
/// not count).  `None` is a malformed name: a truncated label or pointer, a
/// pointer past the end of the message, or a pointer chain longer than the
/// fuel allows.
pub open spec fn spec_decode_name(msg: Seq<u8>, pos: int, fuel: nat) -> Option<(Seq<u8>, int)>
    decreases fuel, msg.len() - pos,
{
    if pos < 0 || pos >= msg.len() {
        None
    } else if msg[pos] == 0 {
        Some((Seq::empty(), 1))
    } else if is_pointer_byte(msg[pos]) {
        if pos + 2 > msg.len() || fuel == 0 {
            None
        } else {
            let target = ptr_target(msg[pos], msg[pos + 1]);
            if target >= msg.len() {
                None
            } else {
                match spec_decode_name(msg, target, (fuel - 1) as nat) {
                    Some((name, _)) => Some((name, 2)),
                    None => None,
                }
            }
        }
    } else {
        let len = msg[pos] as int;
        if pos + 1 + len > msg.len() {
            None
        } else {
            match spec_decode_name(msg, pos + 1 + len, fuel) {
                Some((rest, consumed)) => Some(
                    (dot_join(msg.subrange(pos + 1, pos + 1 + len), rest), 1 + len + consumed),
                ),
                None => None,
            }
        }
    }
}

/// `spec_decode_name` with fuel for every terminating pointer chain: a
/// chain that revisits no offset jumps fewer times than the message has
/// bytes, and one that revisits an offset never terminates.
pub open spec fn spec_name_at(msg: Seq<u8>, pos: int) -> Option<(Seq<u8>, int)> {
    spec_decode_name(msg, pos, msg.len() as nat)
}

/// A successful decode consumes at least one byte and stays inside the message.
pub proof fn lemma_decode_consumed(msg: Seq<u8>, pos: int, fuel: nat)
    requires
        spec_decode_name(msg, pos, fuel) is Some,
    ensures
        1 <= spec_decode_name(msg, pos, fuel).unwrap().1 <= msg.len() - pos,
    decreases fuel, msg.len() - pos,
{
    if pos < 0 || pos >= msg.len() {
    } else if msg[pos] == 0 {
    } else if is_pointer_byte(msg[pos]) {
    } else {
        let len = msg[pos] as int;
        if pos + 1 + len <= msg.len() {
            if spec_decode_name(msg, pos + 1 + len, fuel) is Some {
                lemma_decode_consumed(msg, pos + 1 + len, fuel);
            }
        }
    }
}

/// A length byte never looks like a pointer.
pub proof fn lemma_not_pointer_byte(b: u8)
    requires
        b <= 191,
    ensures
        !is_pointer_byte(b),
{
    assert(b <= 191 ==> b & 0xC0 != 0xC0) by (bit_vector);
}

/// A pointer byte is never the zero terminator, and is at least 192.
pub proof fn lemma_pointer_byte_nonzero(b: u8)
    requires
        is_pointer_byte(b),
    ensures
        b != 0,
        b >= 192,
{
    assert(b & 0xC0 == 0xC0 ==> b >= 192) by (bit_vector);
}

/// One byte of a region of `msg` known to hold the sequence `s`.
pub proof fn lemma_region_index(msg: Seq<u8>, pos: int, s: Seq<u8>, j: int)
    requires
        0 <= pos,
        pos + s.len() <= msg.len(),
        msg.subrange(pos, pos + s.len() as int) == s,
        0 <= j < s.len(),
    ensures
        msg[pos + j] == s[j],
{
    assert(s[j] == msg.subrange(pos, pos + s.len() as int)[j]);
}

/// A sub-region of a region of `msg` known to hold the sequence `s`.
pub proof fn lemma_region_sub(msg: Seq<u8>, pos: int, s: Seq<u8>, a: int, b: int)
    requires
        0 <= pos,
        pos + s.len() <= msg.len(),
        msg.subrange(pos, pos + s.len() as int) == s,
        0 <= a <= b <= s.len(),
    ensures
        msg.subrange(pos + a, pos + b) == s.subrange(a, b),
{
    assert forall|k: int| 0 <= k < b - a implies msg.subrange(pos + a, pos + b)[k] == s.subrange(
        a,
        b,
    )[k] by {
        lemma_region_index(msg, pos, s, a + k);
    }
    assert(msg.subrange(pos + a, pos + b) =~= s.subrange(a, b));
}

/// The index of the first dot, or the length when there is none.
pub open spec fn first_dot(n: Seq<u8>) -> int
    decreases n.len(),
{
    if n.len() == 0 {
        0
    } else if n[0] == DOT {
        0
    } else {
        1 + first_dot(n.subrange(1, n.len() as int))
    }
}

/// `first_dot` is in range, points at a dot when it is not the length, and
/// nothing before it is a dot.
pub proof fn lemma_first_dot(n: Seq<u8>)
    ensures
        0 <= first_dot(n) <= n.len(),
        first_dot(n) < n.len() ==> n[first_dot(n)] == DOT,
        forall|j: int| 0 <= j < first_dot(n) ==> n[j] != DOT,
    decreases n.len(),
{
    if n.len() == 0 {
    } else if n[0] == DOT {
    } else {
        let t = n.subrange(1, n.len() as int);
        lemma_first_dot(t);
        assert forall|j: int| 0 <= j < first_dot(n) implies n[j] != DOT by {
            if j > 0 {
                assert(n[j] == t[j - 1]);
            }
        }
    }
}

/// Any index with no dot before it and a dot (or the end) at it is `first_dot`.
pub proof fn lemma_first_dot_is(n: Seq<u8>, k: int)
    requires
        0 <= k <= n.len(),
        forall|j: int| 0 <= j < k ==> n[j] != DOT,
        k == n.len() || n[k] == DOT,
    ensures
        first_dot(n) == k,
    decreases n.len(),
{
    if n.len() == 0 {
    } else if n[0] == DOT {
    } else {
        lemma_first_dot_is(n.subrange(1, n.len() as int), k - 1);
    }
}

/// Every dot-separated run of a nonempty dotted name has 1 to 191 bytes:
/// exactly the names whose labels the wire form can carry.
pub open spec fn valid_labels(n: Seq<u8>) -> bool
    decreases n.len(),
    via valid_labels_dec
{
    let i = first_dot(n);
    &&& 1 <= i <= MAX_LABEL_LEN
    &&& (i >= n.len() || (i + 1 < n.len() && valid_labels(n.subrange(i + 1, n.len() as int))))
}

#[via_fn]
proof fn valid_labels_dec(n: Seq<u8>) {
    lemma_first_dot(n);
}

/// A name the uncompressed wire form can carry: empty, or made of valid labels.
pub open spec fn valid_name(n: Seq<u8>) -> bool {
    n.len() == 0 || valid_labels(n)
}

/// The label section of the wire form: each dot-separated run prefixed by
/// its length byte, without the terminator.
pub open spec fn spec_encode_labels(n: Seq<u8>) -> Seq<u8>
    decreases n.len(),
    via spec_encode_labels_dec
{
    if n.len() == 0 {
        Seq::empty()
    } else {
        let i = first_dot(n);
        if i >= n.len() {
            seq![n.len() as u8] + n
        } else {
            seq![i as u8] + n.subrange(0, i) + spec_encode_labels(n.subrange(i + 1, n.len() as int))
        }
    }
}

#[via_fn]
proof fn spec_encode_labels_dec(n: Seq<u8>) {
    lemma_first_dot(n);
}

/// The full uncompressed wire form of a name: its labels and the zero byte.
pub open spec fn spec_encode_name(n: Seq<u8>) -> Seq<u8> {
    spec_encode_labels(n) + seq![0u8]
}

/// Decodes the possibly compressed domain name starting at byte `pos` of the
/// whole message.
///
/// Returns the dotted name and how many bytes of the original stream were
/// consumed (a pointer counts its own two bytes, never the bytes at its
/// target, so section-boundary arithmetic stays correct).  `None` reports a
/// malformed name rather than a crash: a truncated label or pointer, a
/// pointer past the end of the message, or a pointer chain that never
/// terminates.
pub fn decode_domain_name(packet: &Vec<u8>, pos: usize) -> (r: Option<(Vec<u8>, usize)>)
    ensures
        ({
            let s = spec_name_at(packet@, pos as int);
            match r {
                Some(p) => s == Some((p.0@, p.1 as int)),
                None => s is None,
            }
        }),
{
    decode_name_rec(packet, pos, packet.len())
}

/// The recursive worker behind `decode_domain_name`; `fuel` bounds how many
/// pointers may be followed.
fn decode_name_rec(packet: &Vec<u8>, pos: usize, fuel: usize) -> (r: Option<(Vec<u8>, usize)>)
    ensures
        ({
            let s = spec_decode_name(packet@, pos as int, fuel as nat);
            match r {
                Some(p) => s == Some((p.0@, p.1 as int)),
                None => s is None,
            }
        }),
    decreases fuel, packet@.len() - pos,
{
    let n = packet.len();
    if pos >= n {
        return None;
    }
    let b = packet[pos];
    if b == 0 {
        return Some((Vec::new(), 1));
    }
    if b & 0xC0 == 0xC0 {
        if n - pos < 2 || fuel == 0 {
            return None;
        }
        proof {
            assert(b & 0x3F < 64) by (bit_vector);
        }
        let target = ((b & 0x3F) as usize) * 256 + (packet[pos + 1] as usize);
        if target >= n {
            return None;
        }
        match decode_name_rec(packet, target, fuel - 1) {
            Some((name, _)) => Some((name, 2)),
            None => None,
        }
    } else {
        let len = b as usize;
        if n - pos < len + 1 {
            return None;
        }
        let mut name: Vec<u8> = Vec::new();
        let mut j: usize = 0;
        while j < len
            invariant
                j <= len,
                pos + 1 + len <= packet@.len(),
                packet@.len() <= usize::MAX,
                name@ == packet@.subrange(pos + 1, pos + 1 + j),
            decreases len - j,
        {
            name.push(packet[pos + 1 + j]);
            assert(name@ =~= packet@.subrange(pos + 1, pos + 1 + (j + 1)));
            j += 1;
        }
        match decode_name_rec(packet, pos + 1 + len, fuel) {
            Some((mut rest, consumed)) => {
                proof {
                    lemma_decode_consumed(packet@, pos + 1 + len, fuel as nat);
                }
                let total = 1 + len + consumed;
                if rest.len() > 0 {
                    name.push(DOT);
                    name.append(&mut rest);
                }
                Some((name, total))
            },
            None => None,
        }
    }
}

/// Encodes a dotted name in uncompressed wire form: each label prefixed by
/// its length byte, terminated by a zero byte.  Compression pointers are
/// never produced; the sender fully controls the outgoing message.
pub fn encode_domain_name(name: &Vec<u8>) -> (r: Vec<u8>)
    requires
        valid_name(name@),
    ensures
        r@ == spec_encode_name(name@),
{
    let mut out: Vec<u8> = Vec::new();
    proof {
        assert(name@.subrange(0, name@.len() as int) =~= name@);
    }
    encode_labels_from(name, 0, &mut out);
    out.push(0);
    assert(out@ =~= spec_encode_name(name@));
    out
}

/// Appends the label section of the suffix of `name` starting at `start`.
fn encode_labels_from(name: &Vec<u8>, start: usize, out: &mut Vec<u8>)
    requires
        start <= name@.len(),
        start == name@.len() || valid_labels(name@.subrange(start as int, name@.len() as int)),
    ensures
        final(out)@ == old(out)@ + spec_encode_labels(
            name@.subrange(start as int, name@.len() as int),
        ),
    decreases name@.len() - start,
{
    let n = name.len();
    let ghost suffix = name@.subrange(start as int, name@.len() as int);
    if start >= n {
        assert(out@ =~= old(out)@ + spec_encode_labels(suffix));
        return ;
    }
    let mut j = start;
    while j < n && name[j] != DOT
        invariant
            start <= j <= n,
            n == name@.len(),
            forall|k: int| start <= k < j ==> name@[k] != DOT,
        decreases n - j,
    {
        j += 1;
    }
    proof {
        lemma_first_dot_is(suffix, j - start);
    }
    let label_len = j - start;
    out.push(label_len as u8);
    let mut k = start;
    while k < j
        invariant
            start <= k <= j <= n,
            n == name@.len(),
            out@ == old(out)@ + seq![(label_len as u8)] + name@.subrange(start as int, k as int),
            label_len == j - start,
        decreases j - k,
    {
        out.push(name[k]);
        assert(out@ =~= old(out)@ + seq![(label_len as u8)] + name@.subrange(
            start as int,
            k + 1,
        ));
        k += 1;
    }
    if j < n {
        proof {
            assert(name@.subrange(j + 1, n as int) =~= suffix.subrange(
                label_len + 1,
                suffix.len() as int,
            ));
        }
        encode_labels_from(name, j + 1, out);
        assert(out@ =~= old(out)@ + spec_encode_labels(suffix));
    } else {
        assert(suffix =~= name@.subrange(start as int, j as int));
        assert(out@ =~= old(out)@ + spec_encode_labels(suffix));
    }
}

/// Round trip for a name: decoding its uncompressed wire form gives the
/// name back and consumes exactly the encoding, with any fuel.
pub proof fn lemma_name_round_trip(msg: Seq<u8>, pos: int, n: Seq<u8>, fuel: nat)
    requires
        valid_name(n),
        0 <= pos,
        pos + spec_encode_name(n).len() <= msg.len(),
        msg.subrange(pos, pos + spec_encode_name(n).len() as int) == spec_encode_name(n),
    ensures
        spec_decode_name(msg, pos, fuel) == Some((n, spec_encode_name(n).len() as int)),
    decreases n.len(),
{
    let enc = spec_encode_name(n);
    let el = spec_encode_labels(n);
    if n.len() == 0 {
        lemma_region_index(msg, pos, enc, 0);
        assert(msg[pos] == 0);
        assert(spec_decode_name(msg, pos, fuel) == Some((Seq::<u8>::empty(), 1int)));
        assert(n =~= Seq::<u8>::empty());
    } else {
        lemma_first_dot(n);
        let i = first_dot(n);
        lemma_region_index(msg, pos, enc, 0);
        if i >= n.len() {
            // a single label followed by the terminator
            assert(enc[0] == n.len() as u8);
            lemma_not_pointer_byte(n.len() as u8);
            assert(msg[pos] as int == n.len());
            lemma_region_sub(msg, pos, enc, 1, 1 + n.len() as int);
            assert(enc.subrange(1, 1 + n.len() as int) =~= n);
            assert(msg.subrange(pos + 1, pos + 1 + n.len() as int) == n);
            lemma_region_index(msg, pos, enc, 1 + n.len() as int);
            assert(enc[1 + n.len() as int] == 0);
            assert(msg[pos + 1 + n.len()] == 0);
            assert(spec_decode_name(msg, pos + 1 + n.len(), fuel) == Some(
                (Seq::<u8>::empty(), 1int),
            ));
            assert(dot_join(n, Seq::<u8>::empty()) == n);
        } else {
            let tail = n.subrange(i + 1, n.len() as int);
            let el_tail = spec_encode_labels(tail);
            assert(el == seq![(i as u8)] + n.subrange(0, i) + el_tail);
            assert(enc[0] == i as u8);
            lemma_not_pointer_byte(i as u8);
            assert(msg[pos] as int == i);
            lemma_region_sub(msg, pos, enc, 1, 1 + i);
            assert(enc.subrange(1, 1 + i) =~= n.subrange(0, i));
            assert(msg.subrange(pos + 1, pos + 1 + i) == n.subrange(0, i));
            // the encoding of the rest of the name sits right after this label
            lemma_region_sub(msg, pos, enc, 1 + i, enc.len() as int);
            assert(enc.subrange(1 + i, enc.len() as int) =~= spec_encode_name(tail));
            assert(msg.subrange(pos + 1 + i, pos + 1 + i + spec_encode_name(tail).len() as int)
                == spec_encode_name(tail));
            lemma_name_round_trip(msg, pos + 1 + i, tail, fuel);
            assert(dot_join(n.subrange(0, i), tail) =~= n);
            assert(1 + i + spec_encode_name(tail).len() == enc.len());
        }
    }
}

/// Compression: a name whose wire form is a run of labels followed by a
/// pointer to offset `k` decodes identically to those labels joined with
/// the fully expanded name stored at `k`, and only the pointer's two bytes
/// are consumed after the labels.  The fuel grows by the one jump taken.
pub proof fn lemma_compression(
    msg: Seq<u8>,
    pos: int,
    head: Seq<u8>,
    tail: Seq<u8>,
    c: int,
    fuel: nat,
)
    requires
        valid_name(head),
        0 <= pos,
        pos + spec_encode_labels(head).len() + 2 <= msg.len(),
        msg.subrange(pos, pos + spec_encode_labels(head).len() as int) == spec_encode_labels(head),
        is_pointer_byte(msg[pos + spec_encode_labels(head).len()]),
        spec_decode_name(
            msg,
            ptr_target(
                msg[pos + spec_encode_labels(head).len()],
                msg[pos + spec_encode_labels(head).len() + 1],
            ),
            fuel,
        ) == Some((tail, c)),
    ensures
        spec_decode_name(msg, pos, (fuel + 1) as nat) == Some(
            (dot_join(head, tail), spec_encode_labels(head).len() as int + 2),
        ),
    decreases head.len(),
{
    let el = spec_encode_labels(head);
    let p = pos + el.len();
    let target = ptr_target(msg[p], msg[p + 1]);
    // a successful decode at the target means the target is inside the message
    assert(0 <= target < msg.len());
    if head.len() == 0 {
        assert(p == pos);
        lemma_pointer_byte_nonzero(msg[pos]);
        assert(spec_decode_name(msg, pos, (fuel + 1) as nat) == Some((tail, 2int)));
    } else {
        lemma_first_dot(head);
        let i = first_dot(head);
        lemma_region_index(msg, pos, el, 0);
        if i >= head.len() {
            assert(el[0] == head.len() as u8);
            lemma_not_pointer_byte(head.len() as u8);
            assert(msg[pos] as int == head.len());
            lemma_region_sub(msg, pos, el, 1, 1 + head.len() as int);
            assert(el.subrange(1, 1 + head.len() as int) =~= head);
            assert(msg.subrange(pos + 1, pos + 1 + head.len() as int) == head);
            // after the single label sits the pointer itself
            let p2 = pos + 1 + head.len() as int;
            assert(p2 == p);
            assert(msg.subrange(p2, p2 + spec_encode_labels(Seq::<u8>::empty()).len() as int)
                =~= spec_encode_labels(Seq::<u8>::empty()));
            lemma_compression(msg, p2, Seq::empty(), tail, c, fuel);
            assert(dot_join(Seq::<u8>::empty(), tail) == tail);
            assert(spec_decode_name(msg, p2, (fuel + 1) as nat) == Some((tail, 2int)));
            assert(dot_join(head, tail) == dot_join(
                msg.subrange(pos + 1, pos + 1 + head.len() as int),
                tail,
            ));
        } else {
            let htail = head.subrange(i + 1, head.len() as int);
            let el_tail = spec_encode_labels(htail);
            assert(el == seq![(i as u8)] + head.subrange(0, i) + el_tail);
            assert(el[0] == i as u8);
            lemma_not_pointer_byte(i as u8);
            assert(msg[pos] as int == i);
            lemma_region_sub(msg, pos, el, 1, 1 + i);
            assert(el.subrange(1, 1 + i) =~= head.subrange(0, i));
            assert(msg.subrange(pos + 1, pos + 1 + i) == head.subrange(0, i));
            lemma_region_sub(msg, pos, el, 1 + i, el.len() as int);
            assert(el.subrange(1 + i, el.len() as int) =~= el_tail);
            assert(msg.subrange(pos + 1 + i, pos + 1 + i + el_tail.len() as int) == el_tail);
            assert(pos + 1 + i + el_tail.len() == p);
            lemma_compression(msg, pos + 1 + i, htail, tail, c, fuel);
            let joined = dot_join(htail, tail);
            assert(htail.len() > 0);
            if tail.len() == 0 {
                assert(dot_join(head.subrange(0, i), joined) =~= head);
                assert(dot_join(head, tail) == head);
            } else {
                assert(dot_join(head.subrange(0, i), joined) =~= head + seq![DOT] + tail);
                assert(dot_join(head, tail) == head + seq![DOT] + tail);
            }
        }
    }
}

/// Decides whether a dotted name can be written in wire form: empty, or
/// every dot-separated run of 1 to 191 bytes.
pub fn is_valid_name(name: &Vec<u8>) -> (r: bool)
    ensures
        r == valid_name(name@),
{
    if name.len() == 0 {
        return true;
    }
    proof {
        assert(name@.subrange(0, name@.len() as int) =~= name@);
    }
    check_labels_from(name, 0)
}

/// Decides `valid_labels` for the suffix of `name` starting at `start`.
fn check_labels_from(name: &Vec<u8>, start: usize) -> (r: bool)
    requires
        start < name@.len(),
    ensures
        r == valid_labels(name@.subrange(start as int, name@.len() as int)),
    decreases name@.len() - start,
{
    let n = name.len();
    let ghost suffix = name@.subrange(start as int, name@.len() as int);
    let mut j = start;
    while j < n && name[j] != DOT
        invariant
            start <= j <= n,
            n == name@.len(),
            forall|k: int| start <= k < j ==> name@[k] != DOT,
        decreases n - j,
    {
        j += 1;
    }
    proof {
        lemma_first_dot_is(suffix, j - start);
    }
    let label_len = j - start;
    if label_len < 1 || label_len > MAX_LABEL_LEN {
        return false;
    }
    if j == n {
        true
    } else if j + 1 == n {
        // a trailing dot leaves an empty last label
        false
    } else {
        proof {
            assert(name@.subrange(j + 1, n as int) =~= suffix.subrange(
                label_len + 1,
                suffix.len() as int,
            ));
        }
        check_labels_from(name, j + 1)
    }
}

} // verus!
