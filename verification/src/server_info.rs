//! Candidate nameservers, and the ranking heuristic that orders them by how
//! many trailing labels their name shares with the query name.

use vstd::prelude::*;

use crate::compression::CompressedName;
use crate::net::IpAddress;

verus! {

/// An authoritative-or-intermediate nameserver: its decoded name, and its
/// address when a glue record supplied one.
#[derive(Debug, Clone)]
pub struct ServerInfo {
    pub name: CompressedName,
    pub ip: Option<IpAddress>,
}

pub ghost struct ServerInfoView {
    pub name: Seq<Seq<u8>>,
    pub ip: Option<IpAddress>,
}

impl View for ServerInfo {
    type V = ServerInfoView;

    open spec fn view(&self) -> ServerInfoView {
        ServerInfoView { name: self.name@, ip: self.ip }
    }
}

/// The byte `i` positions from the tail of `t`.
pub open spec fn tail_byte(t: Seq<u8>, i: int) -> u8 {
    t[t.len() - 1 - i]
}

/// The score walk, `i` positions from the tail of both sequences: every
/// visited byte below 32 (and not zero, and not the very last byte) counts
/// one; the walk stops on a mismatch, or once the target is exhausted, in
/// both cases after counting the stopping byte.
pub open spec fn spec_score_at(s: Seq<u8>, t: Seq<u8>, i: int) -> int
    decreases s.len() - i,
{
    if i < 0 || i >= s.len() {
        0
    } else {
        let b = tail_byte(s, i);
        let cnt: int = if i > 0 && b < 32 && b != 0 {
            1
        } else {
            0
        };
        if i >= t.len() {
            cnt
        } else if b != tail_byte(t, i) {
            cnt
        } else {
            cnt + spec_score_at(s, t, i + 1)
        }
    }
}

/// A server name's suffix-similarity score against the wire-form target:
/// label-boundary bytes within the matched tail.
pub open spec fn spec_score(name: Seq<Seq<u8>>, t: Seq<u8>) -> int {
    spec_score_at(name.flatten(), t, 0)
}

pub proof fn lemma_score_at_nonneg(s: Seq<u8>, t: Seq<u8>, i: int)
    ensures
        spec_score_at(s, t, i) >= 0,
    decreases s.len() - i,
{
    if 0 <= i < s.len() {
        let b = tail_byte(s, i);
        if i < t.len() && b == tail_byte(t, i) {
            lemma_score_at_nonneg(s, t, i + 1);
        }
    }
}

pub proof fn lemma_score_at_bound(s: Seq<u8>, t: Seq<u8>, i: int)
    requires
        0 <= i <= t.len(),
    ensures
        spec_score_at(s, t, i) <= t.len() + 1 - i,
    decreases s.len() - i,
{
    if 0 <= i < s.len() {
        let b = tail_byte(s, i);
        if i < t.len() && b == tail_byte(t, i) {
            lemma_score_at_bound(s, t, i + 1);
        }
    }
}

/// Scores a server's name against the encoded target name, walking both
/// byte strings from the back.
pub fn score_server(server: &ServerInfo, target: &[u8]) -> (r: u32)
    requires
        target@.len() < u32::MAX,
    ensures
        r == spec_score(server@.name, target@),
{
    let flat = server.name.to_vec();
    let ghost t = target@;
    let mut score: u32 = 0;
    let mut i: usize = 0;
    proof {
        lemma_score_at_bound(flat@, t, 0);
        lemma_score_at_nonneg(flat@, t, 0);
    }
    loop
        invariant_except_break
            i <= flat@.len(),
            i <= t.len(),
            score <= i,
            t.len() < u32::MAX,
            t == target@,
            flat@ == server@.name.flatten(),
            spec_score_at(flat@, t, 0) == score + spec_score_at(flat@, t, i as int),
        ensures
            t == target@,
            flat@ == server@.name.flatten(),
            score == spec_score_at(flat@, t, 0),
        decreases flat@.len() - i,
    {
        if i >= flat.len() {
            break;
        }
        let b = flat[flat.len() - 1 - i];
        proof {
            assert(b == tail_byte(flat@, i as int));
        }
        if i > 0 && b < 32 && b != 0 {
            score = score + 1;
        }
        if i >= target.len() {
            break;
        }
        if b != target[target.len() - 1 - i] {
            break;
        }
        i = i + 1;
        proof {
            assert(score <= i);
        }
    }
    score
}

/// The index of the first highest-scoring server; callers hand in at least
/// one server.
pub fn get_best_server(servers: &[ServerInfo], target: &[u8]) -> (r: usize)
    requires
        servers@.len() > 0,
        target@.len() < u32::MAX,
    ensures
        r < servers@.len(),
        forall|k: int|
            0 <= k < servers@.len() ==> spec_score(#[trigger] servers@[k]@.name, target@)
                <= spec_score(servers@[r as int]@.name, target@),
        forall|k: int|
            0 <= k < r ==> spec_score(#[trigger] servers@[k]@.name, target@) < spec_score(
                servers@[r as int]@.name,
                target@,
            ),
{
    let mut max_score: u32 = 0;
    let mut index: usize = 0;
    let mut i: usize = 0;
    while i < servers.len()
        invariant
            i <= servers@.len(),
            index <= i,
            i > 0 ==> index < i,
            target@.len() < u32::MAX,
            i == 0 ==> max_score == 0 && index == 0,
            i > 0 ==> max_score == spec_score(servers@[index as int]@.name, target@),
            forall|k: int|
                0 <= k < i ==> spec_score(#[trigger] servers@[k]@.name, target@) <= max_score,
            forall|k: int|
                0 <= k < index ==> spec_score(#[trigger] servers@[k]@.name, target@) < max_score,
        decreases servers@.len() - i,
    {
        let score = score_server(&servers[i], target);
        if score > max_score {
            index = i;
            max_score = score;
        }
        proof {
            if i == 0 && score <= max_score {
                lemma_score_at_nonneg(servers@[0]@.name.flatten(), target@, 0);
            }
        }
        i = i + 1;
    }
    index
}

/// The servers whose score against `t` is exactly `v`.
pub open spec fn score_is(t: Seq<u8>, v: int) -> spec_fn(ServerInfo) -> bool {
    |si: ServerInfo| spec_score(si@.name, t) == v
}

/// Scores never increase along the list.
pub open spec fn sorted_by_score_desc(list: Seq<ServerInfo>, t: Seq<u8>) -> bool {
    forall|i: int, j: int|
        #![trigger list[i], list[j]]
        0 <= i <= j < list.len() ==> spec_score(list[i]@.name, t) >= spec_score(list[j]@.name, t)
}

proof fn lemma_filter_none(s: Seq<ServerInfo>, p: spec_fn(ServerInfo) -> bool)
    requires
        forall|i: int| 0 <= i < s.len() ==> !p(s[i]),
    ensures
        s.filter(p) == Seq::<ServerInfo>::empty(),
    decreases s.len(),
{
    reveal(Seq::filter);
    if s.len() > 0 {
        assert(forall|i: int| 0 <= i < s.drop_last().len() ==> s.drop_last()[i] == s[i]);
        lemma_filter_none(s.drop_last(), p);
        assert(!p(s.last()));
    }
}

proof fn lemma_filter_single(s: ServerInfo, p: spec_fn(ServerInfo) -> bool)
    ensures
        p(s) ==> seq![s].filter(p) == seq![s],
        !p(s) ==> seq![s].filter(p) == Seq::<ServerInfo>::empty(),
{
    reveal(Seq::filter);
    assert(seq![s].drop_last() =~= Seq::<ServerInfo>::empty());
    assert(Seq::<ServerInfo>::empty().filter(p) == Seq::<ServerInfo>::empty());
    assert(seq![s].last() == s);
    if p(s) {
        assert(seq![s].filter(p) =~= seq![s]);
    }
}

/// Sorts the candidate list by score against `target`, highest first. The
/// sort is stable: for every score, the servers that have it keep their
/// relative order, stated here as the filtered subsequences being unchanged.
pub fn sort_server_list(servers: &mut Vec<ServerInfo>, target: &[u8])
    requires
        target@.len() < u32::MAX,
    ensures
        final(servers)@.len() == old(servers)@.len(),
        sorted_by_score_desc(final(servers)@, target@),
        forall|v: int|
            #[trigger] final(servers)@.filter(score_is(target@, v)) == old(servers)@.filter(
                score_is(target@, v),
            ),
{
    let ghost t = target@;
    let ghost orig = servers@;
    let mut out: Vec<ServerInfo> = Vec::new();
    proof {
        assert forall|v: int|
            #[trigger] orig.filter(score_is(t, v)) == out@.filter(score_is(t, v))
                + servers@.filter(score_is(t, v)) by {
            let p = score_is(t, v);
            reveal(Seq::filter);
            assert(out@.filter(p) == Seq::<ServerInfo>::empty());
            assert(out@.filter(p) + servers@.filter(p) =~= servers@.filter(p));
        }
    }
    while servers.len() > 0
        invariant
            t == target@,
            t.len() < u32::MAX,
            out@.len() + servers@.len() == orig.len(),
            sorted_by_score_desc(out@, t),
            forall|v: int|
                #[trigger] orig.filter(score_is(t, v)) == out@.filter(score_is(t, v))
                    + servers@.filter(score_is(t, v)),
        decreases servers@.len(),
    {
        let ghost rem_old = servers@;
        let s = servers.remove(0);
        let sc = score_server(&s, target);
        let ghost out_old = out@;
        let mut pos: usize = 0;
        while pos < out.len()
            invariant_except_break
                out@ == out_old,
                pos <= out@.len(),
                t == target@,
                t.len() < u32::MAX,
                sc == spec_score(s@.name, t),
                forall|j: int|
                    0 <= j < pos ==> spec_score(#[trigger] out@[j]@.name, t) >= sc,
            ensures
                out@ == out_old,
                pos <= out@.len(),
                forall|j: int|
                    0 <= j < pos ==> spec_score(#[trigger] out@[j]@.name, t) >= sc,
                pos == out@.len() || spec_score(out@[pos as int]@.name, t) < sc,
            decreases out@.len() - pos,
        {
            if score_server(&out[pos], target) < sc {
                break;
            }
            pos = pos + 1;
        }
        out.insert(pos, s);
        proof {
            let a = out_old.subrange(0, pos as int);
            let b = out_old.subrange(pos as int, out_old.len() as int);
            assert(out_old =~= a + b);
            assert(out@ =~= a + seq![s] + b);
            // Everything at or past the insertion point scores strictly
            // below the inserted server.
            assert(forall|j: int|
                0 <= j < b.len() ==> spec_score(#[trigger] b[j]@.name, t) < sc);
            // Index mapping through the insertion.
            assert(forall|j: int| 0 <= j < pos ==> out@[j] == out_old[j]);
            assert(out@[pos as int] == s);
            assert(forall|j: int| pos < j < out@.len() ==> out@[j] == out_old[j - 1]);
            assert(sorted_by_score_desc(out@, t));
            // The remaining input lost its head; the output gained it at the
            // end of its score class.
            assert(rem_old =~= seq![s] + servers@);
            assert forall|v: int|
                #[trigger] orig.filter(score_is(t, v)) == out@.filter(score_is(t, v))
                    + servers@.filter(score_is(t, v)) by {
                let p = score_is(t, v);
                Seq::filter_distributes_over_add(seq![s], servers@, p);
                Seq::filter_distributes_over_add(a, b, p);
                Seq::filter_distributes_over_add(a + seq![s], b, p);
                Seq::filter_distributes_over_add(a, seq![s], p);
                lemma_filter_single(s, p);
                if p(s) {
                    lemma_filter_none(b, p);
                    assert(out@.filter(p) =~= a.filter(p) + seq![s]);
                    assert(out_old.filter(p) =~= a.filter(p) + b.filter(p));
                    assert(b.filter(p) =~= Seq::<ServerInfo>::empty());
                    assert(out@.filter(p) =~= out_old.filter(p) + seq![s]);
                    assert(rem_old.filter(p) =~= seq![s] + servers@.filter(p));
                    assert(out@.filter(p) + servers@.filter(p) =~= out_old.filter(p)
                        + rem_old.filter(p));
                } else {
                    assert(out@.filter(p) =~= a.filter(p) + b.filter(p));
                    assert(out@.filter(p) =~= out_old.filter(p));
                    assert(rem_old.filter(p) =~= servers@.filter(p));
                }
            }
        }
    }
    let ghost out_final = out@;
    proof {
        assert(servers@ =~= Seq::<ServerInfo>::empty());
    }
    servers.append(&mut out);
    proof {
        assert(servers@ =~= out_final);
        assert forall|v: int|
            #[trigger] servers@.filter(score_is(t, v)) == orig.filter(score_is(t, v)) by {
            let p = score_is(t, v);
            reveal(Seq::filter);
            assert(Seq::<ServerInfo>::empty().filter(p) == Seq::<ServerInfo>::empty());
            assert(out_final.filter(p) + Seq::<ServerInfo>::empty() =~= out_final.filter(p));
        }
    }
}

// ---------------------------------------------------------------------------
// Why a server whose name ends with the whole target outranks one whose
// name does not.
// ---------------------------------------------------------------------------

/// All tail positions from `i` on match between `s` and `t`, and `s` is at
/// least as long.
pub open spec fn matches_tail_from(s: Seq<u8>, t: Seq<u8>, i: int) -> bool {
    s.len() >= t.len() && forall|j: int|
        i <= j < t.len() ==> tail_byte(s, j) == #[trigger] tail_byte(t, j)
}

/// `s` ends with all of `t`: every byte of `t` stands at the same distance
/// from the tail of `s`.
pub open spec fn name_ends_with(s: Seq<u8>, t: Seq<u8>) -> bool {
    matches_tail_from(s, t, 0)
}

/// How many countable boundary bytes the tail positions of `t` from `i` on
/// hold: bytes below 32, not zero, not at the very last position.
pub open spec fn boundary_count(t: Seq<u8>, i: int) -> int
    decreases t.len() - i,
{
    if i < 0 || i >= t.len() {
        0
    } else {
        let c: int = if i > 0 && tail_byte(t, i) < 32 && tail_byte(t, i) != 0 {
            1
        } else {
            0
        };
        c + boundary_count(t, i + 1)
    }
}

proof fn lemma_boundary_count_nonneg(t: Seq<u8>, i: int)
    ensures
        boundary_count(t, i) >= 0,
    decreases t.len() - i,
{
    if 0 <= i < t.len() {
        lemma_boundary_count_nonneg(t, i + 1);
    }
}

proof fn lemma_boundary_count_first_label(t: Seq<u8>, i: int)
    requires
        0 <= i <= t.len() - 1,
        t.len() >= 2,
        t[0] != 0,
        t[0] < 32,
    ensures
        boundary_count(t, i) >= 1,
    decreases t.len() - i,
{
    if i == t.len() - 1 {
        assert(tail_byte(t, i) == t[0]);
        lemma_boundary_count_nonneg(t, i + 1);
    } else {
        lemma_boundary_count_first_label(t, i + 1);
    }
}

/// A name that matches the whole tail of `t` collects at least every
/// boundary byte of `t`.
proof fn lemma_full_match_score(s: Seq<u8>, t: Seq<u8>, i: int)
    requires
        0 <= i <= t.len(),
        matches_tail_from(s, t, i),
    ensures
        spec_score_at(s, t, i) >= boundary_count(t, i),
    decreases t.len() - i,
{
    if i == t.len() {
        lemma_score_at_nonneg(s, t, i);
    } else {
        assert(tail_byte(s, i) == tail_byte(t, i));
        lemma_full_match_score(s, t, i + 1);
    }
}

/// A name that does not match the whole tail of `t` collects at most the
/// boundary bytes of `t`: its walk breaks early, and the one byte it may
/// count at the break is paid for by the first label's length byte, which
/// it never reaches.
proof fn lemma_partial_match_score(s: Seq<u8>, t: Seq<u8>, i: int)
    requires
        0 <= i <= t.len() - 1,
        t.len() >= 2,
        t[0] != 0,
        t[0] < 32,
        !matches_tail_from(s, t, i),
    ensures
        spec_score_at(s, t, i) <= boundary_count(t, i),
    decreases t.len() - i,
{
    lemma_boundary_count_nonneg(t, i);
    if i >= s.len() {
    } else {
        let b = tail_byte(s, i);
        if b != tail_byte(t, i) {
            lemma_boundary_count_first_label(t, i);
        } else {
            assert(i < t.len() - 1) by {
                if i == t.len() - 1 {
                    assert(matches_tail_from(s, t, i));
                }
            }
            assert(!matches_tail_from(s, t, i + 1)) by {
                if matches_tail_from(s, t, i + 1) {
                    assert(forall|j: int|
                        i <= j < t.len() ==> tail_byte(s, j) == #[trigger] tail_byte(t, j));
                }
            }
            lemma_partial_match_score(s, t, i + 1);
        }
    }
}

/// A server whose name ends with all labels of the target scores at least
/// as high as any server whose name does not.
pub proof fn lemma_suffix_scores_highest(name: Seq<Seq<u8>>, other: Seq<Seq<u8>>, t: Seq<u8>)
    requires
        t.len() >= 2,
        t[0] != 0,
        t[0] < 32,
        name_ends_with(name.flatten(), t),
        !name_ends_with(other.flatten(), t),
    ensures
        spec_score(name, t) >= spec_score(other, t),
{
    lemma_full_match_score(name.flatten(), t, 0);
    lemma_partial_match_score(other.flatten(), t, 0);
}

} // verus!
