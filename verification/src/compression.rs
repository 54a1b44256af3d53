//! The name codec: encoding textual domains to length-prefixed wire labels,
//! and decoding wire names that may use compression pointers.

use vstd::prelude::*;

use crate::error::{DnsError, ParseError};

verus! {

use vstd::string::StringSliceAdditionalSpecFns;

/// Cap on how many compression pointers one name may chase; a chain longer
/// than this is rejected as a cycle.
pub const MAX_POINTER_HOPS: usize = 128;

/// The byte value of `'.'`, the label separator in textual names.
pub const DOT: u8 = 46;

pub open spec fn spec_is_pointer(b: u8) -> bool {
    b & 0xC0 == 0xC0
}

/// True when a length byte announces a two-byte compression pointer.
pub fn is_pointer(p: u8) -> (r: bool)
    ensures
        r == spec_is_pointer(p),
{
    p & 0xC0 == 0xC0
}

/// The offset packed in the lower 14 bits of a two-byte pointer.
pub open spec fn spec_pointer_offset(a: u8, b: u8) -> int {
    (a as int % 64) * 256 + b as int
}

/// Reads the 14-bit offset out of the two bytes of a compression pointer.
pub fn pointer_to_offset(a: u8, b: u8) -> (r: usize)
    ensures
        r == spec_pointer_offset(a, b),
        r < 16384,
{
    ((a % 64) as usize) * 256 + (b as usize)
}

/// Where the label walk that starts at `i` stops: at a zero byte, one past a
/// pointer byte, or at the end of the buffer. The result never passes
/// `bytes.len()` when `i` does not.
pub open spec fn name_walk(bytes: Seq<u8>, i: int) -> int
    decreases bytes.len() - i,
{
    if i < 0 || i >= bytes.len() {
        i
    } else if bytes[i] == 0 {
        i
    } else if spec_is_pointer(bytes[i]) {
        i + 1
    } else if i + 1 + bytes[i] > bytes.len() {
        bytes.len() as int
    } else {
        name_walk(bytes, i + 1 + bytes[i])
    }
}

/// Advances through the labels at `offset` until a terminator or a pointer
/// byte, exactly as `name_walk` describes.
pub fn walk_name(bytes: &[u8], offset: usize) -> (end: usize)
    requires
        offset <= bytes@.len(),
    ensures
        end == name_walk(bytes@, offset as int),
        offset <= end <= bytes@.len(),
{
    let mut end = offset;
    loop
        invariant_except_break
            name_walk(bytes@, offset as int) == name_walk(bytes@, end as int),
        invariant
            offset <= end <= bytes@.len(),
        ensures
            offset <= end <= bytes@.len(),
            end == name_walk(bytes@, offset as int),
        decreases bytes@.len() - end,
    {
        if end >= bytes.len() {
            break;
        }
        let b = bytes[end];
        if b == 0 {
            break;
        }
        if is_pointer(b) {
            end = end + 1;
            break;
        }
        let step = (b as usize) + 1;
        if bytes.len() - end <= step - 1 {
            end = bytes.len();
            break;
        }
        end = end + step;
    }
    end
}

/// A fresh copy of `bytes[start..end]`.
pub(crate) fn bytes_range(bytes: &[u8], start: usize, end: usize) -> (r: Vec<u8>)
    requires
        start <= end <= bytes@.len(),
    ensures
        r@ == bytes@.subrange(start as int, end as int),
{
    let mut r: Vec<u8> = Vec::new();
    let mut i = start;
    while i < end
        invariant
            start <= i <= end <= bytes@.len(),
            r@ == bytes@.subrange(start as int, i as int),
        decreases end - i,
    {
        r.push(bytes[i]);
        i = i + 1;
        proof {
            assert(r@ =~= bytes@.subrange(start as int, i as int));
        }
    }
    r
}

/// The position of the first `'.'` at or after `i`, or `d.len()` when none
/// follows: the exclusive end of the label that starts at `i`.
pub open spec fn spec_label_split(d: Seq<u8>, i: int) -> int
    decreases d.len() - i,
{
    if i < 0 || i >= d.len() {
        d.len() as int
    } else if d[i] == DOT {
        i
    } else {
        spec_label_split(d, i + 1)
    }
}

pub proof fn lemma_label_split_bounds(d: Seq<u8>, i: int)
    requires
        0 <= i <= d.len(),
    ensures
        i <= spec_label_split(d, i) <= d.len(),
    decreases d.len() - i,
{
    if i < d.len() && d[i] != DOT {
        lemma_label_split_bounds(d, i + 1);
    }
}

/// `spec_label_split` is pinned by its defining property: no dot before `e`,
/// and a dot (or the end) at `e`.
pub proof fn lemma_label_split_at(d: Seq<u8>, i: int, e: int)
    requires
        0 <= i <= e <= d.len(),
        forall|k: int| i <= k < e ==> d[k] != DOT,
        e == d.len() || d[e] == DOT,
    ensures
        spec_label_split(d, i) == e,
    decreases e - i,
{
    if i < e {
        lemma_label_split_at(d, i + 1, e);
    }
}

/// The wire form of the labels of `d[i..]`: each label length-prefixed, the
/// last one followed by the zero terminator. Fails when a label is longer
/// than 63 bytes.
pub open spec fn spec_encode_from(d: Seq<u8>, i: int) -> Result<Seq<u8>, DnsError>
    decreases d.len() - i,
        via spec_encode_from_decreases
{
    let e = spec_label_split(d, i);
    if e - i > 63 {
        Err(DnsError::NameTooLong)
    } else {
        let piece = seq![(e - i) as u8] + d.subrange(i, e);
        if e >= d.len() {
            Ok(piece.push(0u8))
        } else {
            match spec_encode_from(d, e + 1) {
                Ok(rest) => Ok(piece + rest),
                Err(er) => Err(er),
            }
        }
    }
}

#[via_fn]
proof fn spec_encode_from_decreases(d: Seq<u8>, i: int) {
    if 0 <= i && i <= d.len() {
        lemma_label_split_bounds(d, i);
    }
}

/// The wire form of the whole textual name `d`; the empty name encodes to the
/// bare terminator.
pub open spec fn spec_encode_name(d: Seq<u8>) -> Result<Seq<u8>, DnsError> {
    if d.len() == 0 {
        Ok(seq![0u8])
    } else {
        spec_encode_from(d, 0)
    }
}

/// Encodes a `.`-separated textual domain into length-prefixed wire labels
/// ending in a zero byte. A label longer than 63 bytes is rejected.
pub fn compress_domain(domain: &str) -> (r: Result<Vec<u8>, DnsError>)
    ensures
        (match spec_encode_name(domain.spec_bytes()) {
            Ok(w) => r matches Ok(v) && v@ == w,
            Err(e) => r matches Err(e2) && e2 == e,
        }),
{
    let b: &[u8] = domain.as_bytes();
    let mut buf: Vec<u8> = Vec::new();
    if b.len() == 0 {
        buf.push(0);
        proof {
            assert(buf@ =~= seq![0u8]);
        }
        return Ok(buf);
    }
    let mut start: usize = 0;
    loop
        invariant
            b@ == domain.spec_bytes(),
            b@.len() > 0,
            start <= b@.len(),
            (match spec_encode_from(b@, start as int) {
                Ok(rest) => spec_encode_name(b@) == Ok::<Seq<u8>, DnsError>(buf@ + rest),
                Err(e) => spec_encode_name(b@) == Err::<Seq<u8>, DnsError>(e),
            }),
        decreases b@.len() - start,
    {
        let mut end = start;
        while end < b.len() && b[end] != DOT
            invariant
                start <= end <= b@.len(),
                forall|k: int| start <= k < end ==> b@[k] != DOT,
            decreases b@.len() - end,
        {
            end = end + 1;
        }
        proof {
            lemma_label_split_at(b@, start as int, end as int);
        }
        let len = end - start;
        if len > 63 {
            return Err(DnsError::NameTooLong);
        }
        let ghost buf0 = buf@;
        buf.push(len as u8);
        let mut k = start;
        while k < end
            invariant
                start <= k <= end <= b@.len(),
                buf@ == buf0 + seq![(end - start) as u8] + b@.subrange(start as int, k as int),
            decreases end - k,
        {
            buf.push(b[k]);
            k = k + 1;
            proof {
                assert(buf@ =~= buf0 + seq![(end - start) as u8]
                    + b@.subrange(start as int, k as int));
            }
        }
        proof {
            let piece = seq![(end - start) as u8] + b@.subrange(start as int, end as int);
            assert(buf@ =~= buf0 + piece);
        }
        if end == b.len() {
            buf.push(0);
            proof {
                let piece = seq![(end - start) as u8] + b@.subrange(start as int, end as int);
                assert(buf@ =~= buf0 + piece.push(0u8));
            }
            return Ok(buf);
        }
        proof {
            let piece = seq![(end - start) as u8] + b@.subrange(start as int, end as int);
            match spec_encode_from(b@, end + 1) {
                Ok(rest2) => {
                    assert(spec_encode_from(b@, start as int)
                        == Ok::<Seq<u8>, DnsError>(piece + rest2));
                    assert(buf0 + (piece + rest2) =~= (buf0 + piece) + rest2);
                },
                Err(_) => {},
            }
        }
        start = end + 1;
    }
}

/// The structural view of a decoded name: ordered byte runs whose
/// concatenation is the full label sequence with its zero terminator.
#[derive(Debug, PartialEq, Eq, Clone)]
pub struct CompressedName(pub Vec<Vec<u8>>);

impl View for CompressedName {
    type V = Seq<Seq<u8>>;

    open spec fn view(&self) -> Seq<Seq<u8>> {
        self.0@.map_values(|seg: Vec<u8>| seg@)
    }
}

impl CompressedName {
    /// All segments laid end to end.
    pub fn to_vec(&self) -> (r: Vec<u8>)
        ensures
            r@ == self@.flatten(),
    {
        let mut r: Vec<u8> = Vec::new();
        let mut i: usize = 0;
        while i < self.0.len()
            invariant
                i <= self.0@.len(),
                self@.len() == self.0@.len(),
                r@ == self@.subrange(0, i as int).flatten(),
            decreases self.0@.len() - i,
        {
            let seg = &self.0[i];
            let mut j: usize = 0;
            while j < seg.len()
                invariant
                    j <= seg@.len(),
                    i < self.0@.len(),
                    self@.len() == self.0@.len(),
                    seg == self.0@[i as int],
                    r@ == self@.subrange(0, i as int).flatten() + seg@.subrange(0, j as int),
                decreases seg@.len() - j,
            {
                r.push(seg[j]);
                j = j + 1;
                proof {
                    assert(seg@.subrange(0, j as int) =~= seg@.subrange(0, j - 1).push(seg@[j - 1]));
                    assert(r@ =~= self@.subrange(0, i as int).flatten() + seg@.subrange(0, j as int));
                }
            }
            i = i + 1;
            proof {
                let pre = self@.subrange(0, i - 1);
                assert(seg@.subrange(0, seg@.len() as int) =~= seg@);
                assert(self@.subrange(0, i as int) =~= pre.push(seg@));
                pre.lemma_flatten_and_flatten_alt_are_equivalent();
                self@.subrange(0, i as int).lemma_flatten_and_flatten_alt_are_equivalent();
                assert(pre.push(seg@).drop_last() =~= pre);
                assert(pre.push(seg@).flatten_alt() == pre.flatten_alt() + seg@);
                assert(r@ =~= self@.subrange(0, i as int).flatten());
            }
        }
        proof {
            assert(self@.subrange(0, self@.len() as int) =~= self@);
        }
        r
    }
}

/// The text that the labels of one byte run contribute, walking from `i`,
/// together with the updated "no label written yet" flag. A dot precedes
/// every label but the very first.
pub open spec fn spec_part_text(part: Seq<u8>, i: int, first: bool) -> (Seq<u8>, bool)
    decreases part.len() - i,
{
    if i < 0 || i >= part.len() {
        (Seq::empty(), first)
    } else {
        let len = part[i] as int;
        if len == 0 || spec_is_pointer(part[i]) || i + 1 + len > part.len() {
            (Seq::empty(), first)
        } else {
            let lab = (if first {
                Seq::empty()
            } else {
                seq![DOT]
            }) + part.subrange(i + 1, i + 1 + len);
            let rec = spec_part_text(part, i + 1 + len, false);
            (lab + rec.0, rec.1)
        }
    }
}

/// The text that the runs from `k` on contribute.
pub open spec fn spec_runs_text(segs: Seq<Seq<u8>>, k: int, first: bool) -> (Seq<u8>, bool)
    decreases segs.len() - k,
{
    if k < 0 || k >= segs.len() {
        (Seq::empty(), first)
    } else {
        let part = spec_part_text(segs[k], 0, first);
        let rest = spec_runs_text(segs, k + 1, part.1);
        (part.0 + rest.0, rest.1)
    }
}

/// The dotted text of a decoded name; the root name shows as a single dot.
pub open spec fn spec_display_name(segs: Seq<Seq<u8>>) -> Seq<u8> {
    let all = spec_runs_text(segs, 0, true);
    if all.1 {
        seq![DOT]
    } else {
        all.0
    }
}

proof fn lemma_part_text_first_empty(part: Seq<u8>, i: int, first: bool)
    ensures
        spec_part_text(part, i, first).1 ==> first && spec_part_text(part, i, first).0
            =~= Seq::<u8>::empty(),
    decreases part.len() - i,
{
    if 0 <= i < part.len() {
        let len = part[i] as int;
        if !(len == 0 || spec_is_pointer(part[i]) || i + 1 + len > part.len()) {
            lemma_part_text_first_empty(part, i + 1 + len, false);
        }
    }
}

proof fn lemma_runs_text_first_empty(segs: Seq<Seq<u8>>, k: int, first: bool)
    ensures
        spec_runs_text(segs, k, first).1 ==> first && spec_runs_text(segs, k, first).0
            =~= Seq::<u8>::empty(),
    decreases segs.len() - k,
{
    if 0 <= k < segs.len() {
        let part = spec_part_text(segs[k], 0, first);
        lemma_part_text_first_empty(segs[k], 0, first);
        lemma_runs_text_first_empty(segs, k + 1, part.1);
    }
}

impl CompressedName {
    /// The dotted textual form of the name, as ASCII-oriented bytes: labels
    /// joined by `'.'`, the root name shown as `"."`.
    pub fn display_bytes(&self) -> (r: Vec<u8>)
        ensures
            r@ == spec_display_name(self@),
    {
        let mut out: Vec<u8> = Vec::new();
        let mut first = true;
        let mut k: usize = 0;
        while k < self.0.len()
            invariant
                k <= self.0@.len(),
                self@.len() == self.0@.len(),
                spec_runs_text(self@, 0, true) == {
                    let rest = spec_runs_text(self@, k as int, first);
                    (out@ + rest.0, rest.1)
                },
            decreases self.0@.len() - k,
        {
            let part = &self.0[k];
            let ghost out_k = out@;
            let ghost first_k = first;
            let mut j: usize = 0;
            loop
                invariant_except_break
                    j <= part@.len(),
                    k < self.0@.len(),
                    self@.len() == self.0@.len(),
                    part == self.0@[k as int],
                    spec_part_text(self@[k as int], 0, first_k) == {
                        let rest = spec_part_text(self@[k as int], j as int, first);
                        (out@.subrange(out_k.len() as int, out@.len() as int) + rest.0, rest.1)
                    },
                    out@.subrange(0, out_k.len() as int) == out_k,
                    out_k.len() <= out@.len(),
                ensures
                    k < self.0@.len(),
                    self@.len() == self.0@.len(),
                    out@.subrange(0, out_k.len() as int) == out_k,
                    out_k.len() <= out@.len(),
                    spec_part_text(self@[k as int], 0, first_k) == (
                        out@.subrange(out_k.len() as int, out@.len() as int),
                        first,
                    ),
                decreases part@.len() - j,
            {
                if j >= part.len() {
                    break;
                }
                let len_b = part[j];
                let len = len_b as usize;
                if len == 0 || is_pointer(len_b) {
                    break;
                }
                if part.len() - j - 1 < len {
                    break;
                }
                let ghost out_j = out@;
                if !first {
                    out.push(DOT);
                }
                let lab_end = j + 1 + len;
                let mut t = j + 1;
                while t < lab_end
                    invariant
                        lab_end == j + 1 + len,
                        j + 1 <= t <= j + 1 + len,
                        j + 1 + len <= part@.len(),
                        part == self.0@[k as int],
                        k < self.0@.len(),
                        out@ == out_j + (if first {
                            Seq::<u8>::empty()
                        } else {
                            seq![DOT]
                        }) + part@.subrange(j + 1, t as int),
                    decreases j + 1 + len - t,
                {
                    out.push(part[t]);
                    t = t + 1;
                    proof {
                        assert(out@ =~= out_j + (if first {
                            Seq::<u8>::empty()
                        } else {
                            seq![DOT]
                        }) + part@.subrange(j + 1, t as int));
                    }
                }
                proof {
                    let lab = (if first {
                        Seq::<u8>::empty()
                    } else {
                        seq![DOT]
                    }) + part@.subrange(j + 1, j + 1 + len);
                    assert(out@ =~= out_j + lab);
                    let rec = spec_part_text(self@[k as int], j + 1 + len, false);
                    assert(spec_part_text(self@[k as int], j as int, first) == (lab + rec.0, rec.1));
                    assert(out@.subrange(out_k.len() as int, out@.len() as int)
                        =~= out_j.subrange(out_k.len() as int, out_j.len() as int) + lab);
                    assert(out@.subrange(0, out_k.len() as int) =~= out_k);
                    assert((out_j.subrange(out_k.len() as int, out_j.len() as int) + lab) + rec.0
                        =~= out_j.subrange(out_k.len() as int, out_j.len() as int) + (lab + rec.0));
                }
                first = false;
                j = j + 1 + len;
            }
            k = k + 1;
            proof {
                assert(out@.subrange(0, out_k.len() as int) =~= out_k);
                let contributed = out@.subrange(out_k.len() as int, out@.len() as int);
                assert(out@ =~= out_k + contributed);
                let rest = spec_runs_text(self@, k as int, first);
                assert((out_k + contributed) + rest.0 =~= out_k + (contributed + rest.0));
            }
        }
        proof {
            let rest = spec_runs_text(self@, k as int, first);
            assert(rest.0 =~= Seq::<u8>::empty());
            assert(out@ + rest.0 =~= out@);
        }
        if first {
            out.push(DOT);
            proof {
                lemma_runs_text_first_empty(self@, 0, true);
                assert(out@ =~= seq![DOT]);
            }
        }
        out
    }
}

/// A well-formed uncompressed wire name: length-prefixed labels of at most
/// 63 bytes each, ending in exactly one zero byte.
pub open spec fn wf_name(s: Seq<u8>) -> bool
    decreases s.len(),
{
    s.len() > 0 && (if s[0] == 0 {
        s.len() == 1
    } else {
        s[0] < 64 && s.len() >= s[0] + 2 && wf_name(s.subrange(s[0] + 1, s.len() as int))
    })
}

/// On a well-formed name embedded at `off`, the label walk lands exactly on
/// the name's zero terminator.
pub proof fn lemma_walk_wf_name(msg: Seq<u8>, off: int, n: Seq<u8>)
    requires
        0 <= off,
        off + n.len() <= msg.len(),
        msg.subrange(off, off + n.len()) == n,
        wf_name(n),
    ensures
        name_walk(msg, off) == off + n.len() - 1,
        msg[off + n.len() - 1] == 0,
    decreases n.len(),
{
    assert(msg[off] == n[0]);
    if n[0] == 0 {
    } else {
        let b = n[0];
        assert(b < 64 ==> b & 0xC0 != 0xC0) by (bit_vector);
        let rest = n.subrange(b + 1, n.len() as int);
        let off2 = off + b + 1;
        assert(msg.subrange(off2, off2 + rest.len()) =~= rest);
        lemma_walk_wf_name(msg, off2, rest);
    }
}

/// What decoding a chunk yields, chasing at most `fuel` more pointers: the
/// chunk's own label bytes, then the runs that its trailing pointer, if any,
/// designates elsewhere in the message.
pub open spec fn spec_decompress(data: Seq<u8>, msg: Seq<u8>, fuel: nat) -> Result<
    Seq<Seq<u8>>,
    ParseError,
>
    decreases fuel,
{
    let n = data.len() as int;
    if n < 2 || !spec_is_pointer(data[n - 2]) {
        Ok(seq![data])
    } else {
        let head: Seq<Seq<u8>> = if n > 2 {
            seq![data.subrange(0, n - 2)]
        } else {
            Seq::empty()
        };
        if fuel == 0 {
            Err(ParseError::BadName)
        } else {
            let off = spec_pointer_offset(data[n - 2], data[n - 1]);
            if off >= msg.len() {
                Err(ParseError::BadName)
            } else {
                let end = name_walk(msg, off);
                if end >= msg.len() {
                    Err(ParseError::BadName)
                } else {
                    match spec_decompress(msg.subrange(off, end + 1), msg, (fuel - 1) as nat) {
                        Ok(rest) => Ok(head + rest),
                        Err(e) => Err(e),
                    }
                }
            }
        }
    }
}

/// Decodes the wire name in `data`, resolving compression pointers against
/// the whole `message`. A pointer that leaves the message, or a chain longer
/// than `MAX_POINTER_HOPS` (a cycle), is rejected.
pub fn decompress(data: &[u8], message: &[u8]) -> (r: Result<CompressedName, ParseError>)
    ensures
        (match spec_decompress(data@, message@, MAX_POINTER_HOPS as nat) {
            Ok(segs) => r matches Ok(name) && name@ == segs,
            Err(e) => r matches Err(e2) && e2 == e,
        }),
{
    let mut segs: Vec<Vec<u8>> = Vec::new();
    let mut cur: &[u8] = data;
    let mut hops: usize = 0;
    loop
        invariant
            hops <= MAX_POINTER_HOPS,
            (match spec_decompress(cur@, message@, (MAX_POINTER_HOPS - hops) as nat) {
                Ok(rest) => spec_decompress(data@, message@, MAX_POINTER_HOPS as nat)
                    == Ok::<Seq<Seq<u8>>, ParseError>(segs@.map_values(|v: Vec<u8>| v@) + rest),
                Err(e) => spec_decompress(data@, message@, MAX_POINTER_HOPS as nat)
                    == Err::<Seq<Seq<u8>>, ParseError>(e),
            }),
        decreases MAX_POINTER_HOPS - hops,
    {
        let ghost segs0 = segs@.map_values(|v: Vec<u8>| v@);
        let ghost fuel = (MAX_POINTER_HOPS - hops) as nat;
        let n = cur.len();
        if n < 2 || !is_pointer(cur[n - 2]) {
            let chunk = bytes_range(cur, 0, n);
            proof {
                assert(chunk@ =~= cur@);
            }
            segs.push(chunk);
            proof {
                assert(segs@.map_values(|v: Vec<u8>| v@) =~= segs0.push(cur@));
                assert(segs0 + seq![cur@] =~= segs0.push(cur@));
            }
            return Ok(CompressedName(segs));
        }
        let ghost head: Seq<Seq<u8>> = if n > 2 {
            seq![cur@.subrange(0, n - 2)]
        } else {
            Seq::empty()
        };
        if n > 2 {
            let chunk = bytes_range(cur, 0, n - 2);
            segs.push(chunk);
        }
        proof {
            assert(segs@.map_values(|v: Vec<u8>| v@) =~= segs0 + head);
        }
        if hops >= MAX_POINTER_HOPS {
            return Err(ParseError::BadName);
        }
        let off = pointer_to_offset(cur[n - 2], cur[n - 1]);
        if off >= message.len() {
            return Err(ParseError::BadName);
        }
        let end = walk_name(message, off);
        if end >= message.len() {
            return Err(ParseError::BadName);
        }
        let ghost old_cur = cur@;
        cur = &message[off..end + 1];
        hops = hops + 1;
        proof {
            assert(cur@ =~= message@.subrange(off as int, end + 1));
            match spec_decompress(cur@, message@, (MAX_POINTER_HOPS - hops) as nat) {
                Ok(rest) => {
                    assert(spec_decompress(old_cur, message@, fuel)
                        == Ok::<Seq<Seq<u8>>, ParseError>(head + rest));
                    assert(segs0 + (head + rest) =~= (segs0 + head) + rest);
                },
                Err(_) => {},
            }
        }
    }
}

// ---------------------------------------------------------------------------
// Round trip: a well-formed textual name survives encoding, decoding and
// display unchanged.
// ---------------------------------------------------------------------------

/// A textual name, from position `i` on, that can round-trip: non-empty
/// labels (no leading, trailing or doubled dot), and bytes that are neither
/// label terminators nor pointer-like.
pub open spec fn wf_text_from(d: Seq<u8>, i: int) -> bool {
    &&& i < d.len()
    &&& d[i] != DOT
    &&& d[d.len() - 1] != DOT
    &&& forall|k: int| i <= k < d.len() - 1 ==> !(d[k] == DOT && #[trigger] d[k + 1] == DOT)
    &&& forall|k: int| i <= k < d.len() ==> #[trigger] d[k] != 0 && d[k] < 192
}

/// A well-formed textual name.
pub open spec fn wf_text(d: Seq<u8>) -> bool {
    wf_text_from(d, 0)
}

proof fn lemma_label_split_no_dot(d: Seq<u8>, i: int)
    requires
        0 <= i <= d.len(),
    ensures
        forall|k: int| i <= k < spec_label_split(d, i) ==> #[trigger] d[k] != DOT,
        spec_label_split(d, i) == d.len() || d[spec_label_split(d, i)] == DOT,
    decreases d.len() - i,
{
    if i < d.len() && d[i] != DOT {
        lemma_label_split_no_dot(d, i + 1);
    }
}

/// The label walk of the display is unchanged by cutting the byte run at
/// its start.
proof fn lemma_part_text_shift(s: Seq<u8>, off: int, j: int, f: bool)
    requires
        0 <= off <= s.len(),
        0 <= j,
    ensures
        spec_part_text(s, off + j, f) == spec_part_text(s.subrange(off, s.len() as int), j, f),
    decreases s.len() - off - j,
{
    let sub = s.subrange(off, s.len() as int);
    if off + j < s.len() {
        assert(s[off + j] == sub[j]);
        let len = s[off + j] as int;
        if !(len == 0 || spec_is_pointer(s[off + j]) || off + j + 1 + len > s.len()) {
            assert(s.subrange(off + j + 1, off + j + 1 + len) =~= sub.subrange(j + 1, j + 1 + len));
            lemma_part_text_shift(s, off, j + 1 + len, false);
        }
    }
}

proof fn lemma_encode_from_props(d: Seq<u8>, i: int, first: bool)
    requires
        0 <= i,
        wf_text_from(d, i),
        spec_encode_from(d, i) is Ok,
    ensures
        ({
            let w = spec_encode_from(d, i)->Ok_0;
            &&& wf_name(w)
            &&& w.len() == d.len() - i + 2
            &&& w[w.len() - 2] == d[d.len() - 1]
            &&& spec_part_text(w, 0, first) == ((if first {
                Seq::<u8>::empty()
            } else {
                seq![DOT]
            }) + d.subrange(i, d.len() as int), false)
        }),
    decreases d.len() - i,
{
    let e = spec_label_split(d, i);
    lemma_label_split_bounds(d, i);
    lemma_label_split_no_dot(d, i);
    assert(e > i);
    let lab_len = e - i;
    assert(lab_len <= 63);
    let lb = lab_len as u8;
    assert(lb == lab_len);
    assert(lb < 64 ==> lb & 0xC0 != 0xC0) by (bit_vector);
    let piece = seq![lb] + d.subrange(i, e);
    let w = spec_encode_from(d, i)->Ok_0;
    let pre: Seq<u8> = if first {
        Seq::empty()
    } else {
        seq![DOT]
    };
    if e >= d.len() {
        assert(w =~= seq![lb] + d.subrange(i, e) + seq![0u8]);
        assert(w.len() == lab_len + 2);
        // Well-formed: one label of `lab_len` bytes, then the terminator.
        assert(w.subrange(lab_len + 1, w.len() as int) =~= seq![0u8]);
        assert(wf_name(seq![0u8]));
        assert(wf_name(w));
        assert(w[w.len() - 2] == d[d.len() - 1]);
        // Display: the one label, and nothing after it.
        assert(w.subrange(1, 1 + lab_len) =~= d.subrange(i, d.len() as int));
        assert(w[1 + lab_len] == 0);
        assert(spec_part_text(w, 1 + lab_len, false) == (Seq::<u8>::empty(), false));
        assert(spec_part_text(w, 0, first).0 =~= pre + d.subrange(i, d.len() as int));
    } else {
        assert(d[e] == DOT);
        assert(e + 1 < d.len()) by {
            if e == d.len() - 1 {
                assert(d[d.len() - 1] == DOT);
            }
        }
        assert(d[e + 1] != DOT) by {
            assert(!(d[e] == DOT && d[e + 1] == DOT));
        }
        assert(wf_text_from(d, e + 1));
        assert(spec_encode_from(d, e + 1) is Ok);
        lemma_encode_from_props(d, e + 1, false);
        let rest = spec_encode_from(d, e + 1)->Ok_0;
        assert(w == piece + rest);
        assert(w.len() == d.len() - i + 2);
        // Well-formed: this label, then the rest of the name.
        assert(w[0] == lb);
        assert(w.subrange(lab_len + 1, w.len() as int) =~= rest);
        assert(wf_name(w));
        assert(w[w.len() - 2] == rest[rest.len() - 2]);
        // Display: this label, then a dot and the rest.
        assert(w.subrange(1, 1 + lab_len) =~= d.subrange(i, e));
        assert(1 + lab_len + 1 <= w.len());
        assert(w.subrange(1 + lab_len, w.len() as int) =~= rest);
        lemma_part_text_shift(w, 1 + lab_len, 0, false);
        assert(spec_part_text(w, 1 + lab_len, false) == spec_part_text(rest, 0, false));
        assert(spec_part_text(rest, 0, false) == (seq![DOT] + d.subrange(e + 1, d.len() as int),
            false,
        ));
        let lab = pre + w.subrange(1, 1 + lab_len);
        assert(spec_part_text(w, 0, first) == (lab + (seq![DOT] + d.subrange(e + 1, d.len() as int)),
            false,
        ));
        assert(lab + (seq![DOT] + d.subrange(e + 1, d.len() as int)) =~= pre + d.subrange(
            i,
            d.len() as int,
        ));
    }
}

/// Decoding what the encoder wrote gives the name back: for a well-formed
/// textual name, the encoded wire form is well-formed, decodes (against any
/// message, with any hop budget) to the single run holding exactly those
/// bytes, and displays as the original text.
pub proof fn lemma_name_round_trip(d: Seq<u8>, msg: Seq<u8>, fuel: nat)
    requires
        wf_text(d),
        spec_encode_name(d) is Ok,
    ensures
        ({
            let w = spec_encode_name(d)->Ok_0;
            &&& wf_name(w)
            &&& seq![w].flatten() == w
            &&& spec_decompress(w, msg, fuel) == Ok::<Seq<Seq<u8>>, ParseError>(seq![w])
            &&& spec_display_name(seq![w]) == d
        }),
{
    lemma_encode_from_props(d, 0, true);
    let w = spec_encode_name(d)->Ok_0;
    // A single run flattens to itself.
    assert(seq![w].drop_first() =~= Seq::<Seq<u8>>::empty());
    assert(Seq::<Seq<u8>>::empty().flatten() == Seq::<u8>::empty());
    assert(seq![w].flatten() =~= w);
    // The byte before the terminator is the last text byte, which is no
    // pointer mark, so the decoder keeps the run whole.
    let b = w[w.len() - 2];
    assert(b == d[d.len() - 1]);
    assert(b < 192);
    assert(b < 192 ==> b & 0xC0 != 0xC0) by (bit_vector);
    assert(!spec_is_pointer(b));
    assert(spec_decompress(w, msg, fuel) == Ok::<Seq<Seq<u8>>, ParseError>(seq![w]));
    // The display walks the one run and prints the text back.
    assert(spec_part_text(w, 0, true) == (d.subrange(0, d.len() as int), false)) by {
        assert(Seq::<u8>::empty() + d.subrange(0, d.len() as int) =~= d.subrange(
            0,
            d.len() as int,
        ));
    }
    assert(spec_runs_text(seq![w], 1, false) == (Seq::<u8>::empty(), false));
    assert(seq![w][0] == w);
    assert(spec_runs_text(seq![w], 0, true).0 =~= d) by {
        assert(d.subrange(0, d.len() as int) =~= d);
    }
    assert(spec_display_name(seq![w]) == d);
}

} // verus!
