use vstd::prelude::*;
use crate::pool::{allocated, was_reset, MaskPool};
use crate::table::{bound_after, entry_of, no_dups, same_request, EntryInfo, ReqData};

verus! {

/// The same mask words copied out in two steps, with the pool reset between
/// them, give two buffers with the same contents; the reset leaves the first
/// step's buffer as it was.
pub proof fn lemma_mask_repeatable(start: MaskPool, first: MaskPool, renewed: MaskPool, second: MaskPool, src: Seq<u32>, r1: int, r2: int)
    requires
        start.wf(),
        allocated(start, first, src, r1),
        was_reset(first, renewed),
        allocated(renewed, second, src, r2),
    ensures
        second.bufs@[r2]@ == first.bufs@[r1]@,
        renewed.bufs@[r1] == first.bufs@[r1],
{
}

pub open spec fn strictly_ascending(s: Seq<u64>) -> bool {
    forall|a: int, b: int| 0 <= a < b < s.len() ==> s[a] < s[b]
}

/// Two strictly ascending sequences with the same elements are equal.
proof fn lemma_sorted_unique(s: Seq<u64>, t: Seq<u64>)
    requires
        strictly_ascending(s),
        strictly_ascending(t),
        forall|x: u64| s.contains(x) <==> t.contains(x),
    ensures
        s == t,
    decreases s.len(),
{
    if s.len() == 0 {
        if t.len() > 0 {
            assert(t.contains(t[0]));
        }
        assert(s =~= t);
    } else {
        assert(s.contains(s[0]));
        assert(t.len() > 0);
        assert(t.contains(t[0]));
        let i = choose|i: int| 0 <= i < t.len() && t[i] == s[0];
        let j = choose|j: int| 0 <= j < s.len() && s[j] == t[0];
        assert(t[0] <= t[i]);
        assert(s[0] <= s[j]);
        assert(s[0] == t[0]);
        let s1 = s.drop_first();
        let t1 = t.drop_first();
        assert forall|x: u64| s1.contains(x) <==> t1.contains(x) by {
            if s1.contains(x) {
                let w = choose|w: int| 0 <= w < s1.len() && s1[w] == x;
                assert(s[w + 1] == x);
                assert(x != s[0]);
                assert(t.contains(x));
                let v = choose|v: int| 0 <= v < t.len() && t[v] == x;
                assert(v != 0);
                assert(t1[v - 1] == x);
            }
            if t1.contains(x) {
                let w = choose|w: int| 0 <= w < t1.len() && t1[w] == x;
                assert(t[w + 1] == x);
                assert(x != t[0]);
                assert(s.contains(x));
                let v = choose|v: int| 0 <= v < s.len() && s[v] == x;
                assert(v != 0);
                assert(s1[v - 1] == x);
            }
        }
        lemma_sorted_unique(s1, t1);
        assert(s =~= seq![s[0]] + s1);
        assert(t =~= seq![t[0]] + t1);
    }
}

/// Slot assignment does not depend on the order of the batch: binding the
/// same sequences of a request, presented in any two orders, from the same
/// record, gives the same slots, provided every sequence got a slot.
pub proof fn lemma_binding_order_free<M>(a: ReqData<M>, b1: ReqData<M>, b2: ReqData<M>, e1: Seq<EntryInfo>, e2: Seq<EntryInfo>)
    requires
        same_request(a, b1),
        same_request(a, b2),
        no_dups(b1.llg_infos@),
        no_dups(b2.llg_infos@),
        bound_after(a, b1, e1),
        bound_after(a, b2, e2),
        forall|s: u64| entry_of(e1, a.client_req_id, s) <==> entry_of(e2, a.client_req_id, s),
        forall|i: int| 0 <= i < e1.len() && (#[trigger] e1[i]).client_req_id == a.client_req_id ==> b1.llg_infos@.contains(e1[i].seq_id),
        forall|i: int| 0 <= i < e2.len() && (#[trigger] e2[i]).client_req_id == a.client_req_id ==> b2.llg_infos@.contains(e2[i].seq_id),
    ensures
        b1.llg_infos@ == b2.llg_infos@,
{
    let n = a.llg_infos@.len() as int;
    let x1 = b1.llg_infos@.subrange(n, b1.llg_infos@.len() as int);
    let x2 = b2.llg_infos@.subrange(n, b2.llg_infos@.len() as int);
    assert(strictly_ascending(x1)) by {
        assert forall|p: int, q: int| 0 <= p < q < x1.len() implies x1[p] < x1[q] by {
            assert(b1.llg_infos@[n + p] <= b1.llg_infos@[n + q]);
            assert(b1.llg_infos@[n + p] != b1.llg_infos@[n + q]);
        }
    }
    assert(strictly_ascending(x2)) by {
        assert forall|p: int, q: int| 0 <= p < q < x2.len() implies x2[p] < x2[q] by {
            assert(b2.llg_infos@[n + p] <= b2.llg_infos@[n + q]);
            assert(b2.llg_infos@[n + p] != b2.llg_infos@[n + q]);
        }
    }
    assert forall|s: u64| x1.contains(s) implies x2.contains(s) by {
        let w = choose|w: int| 0 <= w < x1.len() && x1[w] == s;
        assert(b1.llg_infos@[n + w] == s);
        assert(entry_of(e1, a.client_req_id, s) && !a.llg_infos@.contains(s));
        assert(entry_of(e2, a.client_req_id, s));
        let i = choose|i: int| 0 <= i < e2.len() && (#[trigger] e2[i]).client_req_id == a.client_req_id && e2[i].seq_id == s;
        assert(b2.llg_infos@.contains(s));
        let v = choose|v: int| 0 <= v < b2.llg_infos@.len() && b2.llg_infos@[v] == s;
        if v < n {
            assert(b2.llg_infos@.subrange(0, n)[v] == s);
            assert(a.llg_infos@[v] == s);
        }
        assert(x2[v - n] == s);
    }
    assert forall|s: u64| x2.contains(s) implies x1.contains(s) by {
        let w = choose|w: int| 0 <= w < x2.len() && x2[w] == s;
        assert(b2.llg_infos@[n + w] == s);
        assert(entry_of(e2, a.client_req_id, s) && !a.llg_infos@.contains(s));
        assert(entry_of(e1, a.client_req_id, s));
        let i = choose|i: int| 0 <= i < e1.len() && (#[trigger] e1[i]).client_req_id == a.client_req_id && e1[i].seq_id == s;
        assert(b1.llg_infos@.contains(s));
        let v = choose|v: int| 0 <= v < b1.llg_infos@.len() && b1.llg_infos@[v] == s;
        if v < n {
            assert(b1.llg_infos@.subrange(0, n)[v] == s);
            assert(a.llg_infos@[v] == s);
        }
        assert(x1[v - n] == s);
    }
    lemma_sorted_unique(x1, x2);
    assert(b1.llg_infos@ =~= a.llg_infos@ + x1);
    assert(b2.llg_infos@ =~= a.llg_infos@ + x2);
}

} // verus!
