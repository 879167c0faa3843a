use vstd::prelude::*;

verus! {

/// Why a request was not taken.
#[derive(PartialEq, Eq, Structural, Clone, Copy, Debug)]
pub enum RequestError {
    /// The number of grammars is neither zero nor the number of return sequences.
    GrammarCount,
    /// The engine id or the client id is already in the table.
    DuplicateId,
}

/// Bookkeeping for one client request.
pub struct ReqData<M> {
    pub req_id: u64,
    pub client_req_id: u64,
    pub logs: String,
    pub error: Option<String>,
    /// One slot per return sequence; empty while its machine is checked out.
    pub llgs: Vec<Option<M>>,
    /// `llg_stopped[i]`: slot `i`'s grammar has finished; its machine is
    /// kept only for its final snapshot and is never computed again.
    pub llg_stopped: Vec<bool>,
    /// `llg_infos[i]` is the engine sequence id bound to slot `i`.
    pub llg_infos: Vec<u64>,
    pub prompt_len: usize,
}

/// One active sequence of a batch step, as the engine hands it over.
#[derive(PartialEq, Eq, Structural, Clone, Copy, Debug)]
pub struct EntryInfo {
    pub seq_id: u64,
    pub client_req_id: u64,
}

/// A sequence checked out for computation: its machine, moved out of its slot.
pub struct Pending<M> {
    pub entry_idx: usize,
    pub client_req_id: u64,
    pub llg_idx: usize,
    pub prompt_len: usize,
    pub llg: Option<M>,
}

/// All requests in flight.
pub struct RequestTable<M> {
    pub recs: Vec<ReqData<M>>,
}

/// Whether a grammar list of `n_grammars` fits a request for `n_return` sequences.
pub open spec fn grammar_count_ok(n_grammars: nat, n_return: nat) -> bool {
    n_grammars == 0 || n_grammars == n_return
}

/// Checks the grammar count of a request before it goes to the engine.
pub fn validate_grammar_count(n_grammars: usize, n_return: usize) -> (r: Result<(), RequestError>)
    ensures
        r is Ok <==> grammar_count_ok(n_grammars as nat, n_return as nat),
        r is Err ==> r == Err::<(), RequestError>(RequestError::GrammarCount),
{
    if n_grammars == 0 || n_grammars == n_return {
        Ok(())
    } else {
        Err(RequestError::GrammarCount)
    }
}

pub open spec fn ascending_from(s: Seq<u64>, start: int) -> bool {
    forall|a: int, b: int| start <= a < b < s.len() ==> s[a] <= s[b]
}

/// A record handed back to the table for a sequence that left it.
pub enum Route<M> {
    /// No record has that engine id.
    Unknown,
    /// The record's logs (now emptied), the sequence's final machine when
    /// its last chunk came, and the record's error to attach, if the chunk
    /// carries none of its own.
    Deliver { logs: String, final_llg: Option<M>, error: Option<String> },
}

/// What the drain loop does after handing a chunk to the client's channel.
#[derive(PartialEq, Eq, Structural, Clone, Copy, Debug)]
pub enum Delivery {
    /// The client is gone: the record was removed; cancel the engine request.
    CancelEngine,
    /// The request's last chunk went out: the record was removed.
    Finished,
    /// More chunks will come.
    Continue,
}

/// Record `b` is `a` with a computed sequence checked back in at `li`.
pub open spec fn checked_in<M>(a: ReqData<M>, b: ReqData<M>, li: int, llg: M, logs: Seq<char>, error: Option<String>, stopped: bool) -> bool {
    &&& b.llg_stopped@ == a.llg_stopped@.update(li, a.llg_stopped@[li] || stopped)
    &&& b.req_id == a.req_id
    &&& b.client_req_id == a.client_req_id
    &&& b.prompt_len == a.prompt_len
    &&& b.llg_infos@ == a.llg_infos@
    &&& b.llgs@ == a.llgs@.update(li, Some(llg))
    &&& b.logs@ == a.logs@ + logs
    &&& b.error == (if a.error is Some { a.error } else { error })
}

/// Everything of a record but its slots and bindings is unchanged, its
/// bindings only grew, and it has as many slots as before.
pub open spec fn same_request<M>(a: ReqData<M>, b: ReqData<M>) -> bool {
    &&& a.req_id == b.req_id
    &&& a.client_req_id == b.client_req_id
    &&& a.prompt_len == b.prompt_len
    &&& a.logs@ == b.logs@
    &&& a.error == b.error
    &&& a.llgs@.len() == b.llgs@.len()
    &&& a.llg_stopped@ == b.llg_stopped@
    &&& a.llg_infos@.len() <= b.llg_infos@.len()
    &&& b.llg_infos@.subrange(0, a.llg_infos@.len() as int) == a.llg_infos@
}


/// `b` is `a` later in the same batch step: same request, bindings only
/// appended, and an emptied slot stays empty.
pub open spec fn evolves<M>(a: ReqData<M>, b: ReqData<M>) -> bool {
    &&& same_request(a, b)
    &&& forall|li: int| 0 <= li < a.llgs@.len() && (#[trigger] a.llgs@[li]) is None ==> b.llgs@[li] is None
}

pub open spec fn evolves_all<M>(a: Seq<ReqData<M>>, b: Seq<ReqData<M>>) -> bool {
    &&& a.len() == b.len()
    &&& forall|ri: int| 0 <= ri < a.len() ==> evolves(#[trigger] a[ri], b[ri])
}

/// The pending item `p` stands for entry `e`: the record of its client binds
/// `e`'s sequence at slot `p.llg_idx`, and that slot is empty.
pub open spec fn pending_bound<M>(recs: Seq<ReqData<M>>, e: EntryInfo, p: Pending<M>) -> bool {
    &&& p.client_req_id == e.client_req_id
    &&& exists|ri: int| 0 <= ri < recs.len() && (#[trigger] recs[ri]).client_req_id == p.client_req_id
    &&& forall|ri: int| 0 <= ri < recs.len() && (#[trigger] recs[ri]).client_req_id == p.client_req_id ==> {
        &&& p.llg_idx < recs[ri].llg_infos@.len()
        &&& p.llg_idx < recs[ri].llgs@.len()
        &&& recs[ri].llg_infos@[p.llg_idx as int] == e.seq_id
        &&& recs[ri].llgs@[p.llg_idx as int] is None
        &&& p.prompt_len == recs[ri].prompt_len
    }
}

/// Sequence ids of a batch are pairwise distinct.
pub open spec fn distinct_seqs(e: Seq<EntryInfo>) -> bool {
    forall|i: int, j: int| 0 <= i < j < e.len() ==> e[i].seq_id != e[j].seq_id
}

/// Some entry of the batch is sequence `s` of client `c`.
pub open spec fn entry_of(e: Seq<EntryInfo>, c: u64, s: u64) -> bool {
    exists|i: int| 0 <= i < e.len() && (#[trigger] e[i]).client_req_id == c && e[i].seq_id == s
}

/// `b` is record `a` after the batch `e` was bound: old bindings kept, new
/// ones in ascending order, each one a sequence of the batch for this
/// request not bound before, and every such sequence bound unless the
/// record ran out of slots.
pub open spec fn bound_after<M>(a: ReqData<M>, b: ReqData<M>, e: Seq<EntryInfo>) -> bool {
    &&& ascending_from(b.llg_infos@, a.llg_infos@.len() as int)
    &&& forall|x: int| a.llg_infos@.len() <= x < b.llg_infos@.len() ==>
        entry_of(e, a.client_req_id, #[trigger] b.llg_infos@[x]) && !a.llg_infos@.contains(b.llg_infos@[x])
    &&& forall|i: int| 0 <= i < e.len() && (#[trigger] e[i]).client_req_id == a.client_req_id
        && !a.llg_infos@.contains(e[i].seq_id) ==>
        b.llg_infos@.contains(e[i].seq_id) || b.llg_infos@.len() == b.llgs@.len()
}

/// The item holds the machine that its slot held in `recs`.
pub open spec fn took_machine<M>(recs: Seq<ReqData<M>>, p: Pending<M>) -> bool {
    &&& p.llg is Some
    &&& forall|ri: int| 0 <= ri < recs.len() && (#[trigger] recs[ri]).client_req_id == p.client_req_id ==>
        p.llg_idx < recs[ri].llgs@.len() && p.llg == recs[ri].llgs@[p.llg_idx as int]
        && !recs[ri].llg_stopped@[p.llg_idx as int]
}

pub open spec fn sorted_by_seq(s: Seq<(u64, usize)>) -> bool {
    forall|a: int, b: int| 0 <= a < b < s.len() ==> s[a].0 <= s[b].0
}

/// Sorts sequences waiting for a slot by ascending sequence id.
pub fn sort_by_seq(v: Vec<(u64, usize)>) -> (r: Vec<(u64, usize)>)
    ensures
        sorted_by_seq(r@),
        r@.len() == v@.len(),
        forall|k: int| 0 <= k < r@.len() ==> v@.contains(#[trigger] r@[k]),
        forall|k: int| 0 <= k < v@.len() ==> r@.contains(#[trigger] v@[k]),
        r@.to_multiset() == v@.to_multiset(),
{
    let mut out: Vec<(u64, usize)> = Vec::new();
    let mut i: usize = 0;
    proof {
        assert(v@.subrange(0, 0) =~= out@);
    }
    while i < v.len()
        invariant
            i <= v@.len(),
            out@.len() == i,
            sorted_by_seq(out@),
            forall|k: int| 0 <= k < out@.len() ==> v@.contains(#[trigger] out@[k]),
            forall|k: int| 0 <= k < i ==> out@.contains(#[trigger] v@[k]),
            out@.to_multiset() == v@.subrange(0, i as int).to_multiset(),
        decreases v@.len() - i,
    {
        let x = v[i];
        let mut p: usize = 0;
        while p < out.len() && out[p].0 <= x.0
            invariant
                p <= out@.len(),
                forall|k: int| 0 <= k < p ==> out@[k].0 <= x.0,
            decreases out@.len() - p,
        {
            p = p + 1;
        }
        let ghost before = out@;
        out.insert(p, x);
        proof {
            assert(out@ == before.insert(p as int, x));
            assert forall|a: int, b: int| 0 <= a < b < out@.len() implies out@[a].0 <= out@[b].0 by {
                if b < p {
                } else if b == p {
                } else if a < p {
                    assert(out@[b] == before[b - 1]);
                    assert(before[p as int].0 > x.0 || p == before.len());
                } else if a == p {
                    assert(out@[b] == before[b - 1]);
                    assert(before[p as int].0 > x.0);
                    assert(before[p as int].0 <= before[b - 1].0 || b - 1 == p);
                } else {
                    assert(out@[a] == before[a - 1]);
                    assert(out@[b] == before[b - 1]);
                }
            }
            assert forall|k: int| 0 <= k < out@.len() implies v@.contains(#[trigger] out@[k]) by {
                if k < p {
                    assert(out@[k] == before[k]);
                } else if k == p {
                    assert(out@[k] == v@[i as int]);
                    assert(v@.contains(v@[i as int]));
                } else {
                    assert(out@[k] == before[k - 1]);
                }
            }
            assert forall|k: int| 0 <= k < i + 1 implies out@.contains(#[trigger] v@[k]) by {
                if k < i {
                    let w = choose|w: int| 0 <= w < before.len() && before[w] == v@[k];
                    if w < p {
                        assert(out@[w] == before[w]);
                    } else {
                        assert(out@[w + 1] == before[w]);
                    }
                } else {
                    assert(out@[p as int] == v@[k]);
                }
            }
            vstd::seq_lib::to_multiset_insert(before, p as int, x);
            vstd::seq_lib::to_multiset_build(v@.subrange(0, i as int), x);
            assert(v@.subrange(0, i + 1) =~= v@.subrange(0, i as int).push(x));
        }
        i = i + 1;
    }
    proof {
        assert(v@.subrange(0, v@.len() as int) =~= v@);
    }
    out
}

/// Position of `seq` among the bound sequence ids.
pub fn position_of(infos: &Vec<u64>, seq: u64) -> (r: Option<usize>)
    ensures
        r matches Some(i) ==> i < infos@.len() && infos@[i as int] == seq,
        r is None ==> !infos@.contains(seq),
{
    let mut i: usize = 0;
    while i < infos.len()
        invariant
            i <= infos@.len(),
            forall|j: int| 0 <= j < i ==> infos@[j] != seq,
        decreases infos@.len() - i,
    {
        if infos[i] == seq {
            return Some(i);
        }
        i = i + 1;
    }
    None
}

proof fn lemma_evolves_refl<M>(a: Seq<ReqData<M>>)
    ensures
        evolves_all(a, a),
{
    assert forall|ri: int| 0 <= ri < a.len() implies evolves(#[trigger] a[ri], a[ri]) by {
        assert(a[ri].llg_infos@.subrange(0, a[ri].llg_infos@.len() as int) =~= a[ri].llg_infos@);
    }
}

proof fn lemma_evolves_trans<M>(a: Seq<ReqData<M>>, b: Seq<ReqData<M>>, c: Seq<ReqData<M>>)
    requires
        evolves_all(a, b),
        evolves_all(b, c),
    ensures
        evolves_all(a, c),
{
    assert forall|ri: int| 0 <= ri < a.len() implies evolves(#[trigger] a[ri], c[ri]) by {
        assert(evolves(a[ri], b[ri]));
        assert(evolves(b[ri], c[ri]));
        let la = a[ri].llg_infos@.len() as int;
        let lb = b[ri].llg_infos@.len() as int;
        assert(c[ri].llg_infos@.subrange(0, la) =~= c[ri].llg_infos@.subrange(0, lb).subrange(0, la));
    }
}

proof fn lemma_pending_kept<M>(a: Seq<ReqData<M>>, b: Seq<ReqData<M>>, e: EntryInfo, p: Pending<M>)
    requires
        evolves_all(a, b),
        pending_bound(a, e, p),
    ensures
        pending_bound(b, e, p),
{
    let w = choose|ri: int| 0 <= ri < a.len() && (#[trigger] a[ri]).client_req_id == p.client_req_id;
    assert(evolves(a[w], b[w]));
    assert(b[w].client_req_id == p.client_req_id);
    assert forall|ri: int| 0 <= ri < b.len() && (#[trigger] b[ri]).client_req_id == p.client_req_id implies {
        &&& p.llg_idx < b[ri].llg_infos@.len()
        &&& p.llg_idx < b[ri].llgs@.len()
        &&& b[ri].llg_infos@[p.llg_idx as int] == e.seq_id
        &&& b[ri].llgs@[p.llg_idx as int] is None
        &&& p.prompt_len == b[ri].prompt_len
    } by {
        assert(evolves(a[ri], b[ri]));
        assert(a[ri].client_req_id == p.client_req_id);
        let la = a[ri].llg_infos@.len() as int;
        assert(b[ri].llg_infos@.subrange(0, la)[p.llg_idx as int] == b[ri].llg_infos@[p.llg_idx as int]);
        assert(a[ri].llgs@[p.llg_idx as int] is None);
    }
}

/// Engine ids and client ids are unique, and no record binds more
/// sequences than it has slots.
pub open spec fn recs_wf<M>(s: Seq<ReqData<M>>) -> bool {
    &&& forall|i: int, j: int| 0 <= i < j < s.len() ==>
        s[i].req_id != s[j].req_id && s[i].client_req_id != s[j].client_req_id
    &&& forall|i: int| 0 <= i < s.len() ==> (#[trigger] s[i]).llg_infos@.len() <= s[i].llgs@.len()
    &&& forall|i: int| 0 <= i < s.len() ==> no_dups((#[trigger] s[i]).llg_infos@)
    &&& forall|i: int| 0 <= i < s.len() ==> (#[trigger] s[i]).llg_stopped@.len() == s[i].llgs@.len()
}

/// No sequence id is bound twice.
pub open spec fn no_dups(s: Seq<u64>) -> bool {
    forall|a: int, b: int| 0 <= a < b < s.len() ==> s[a] != s[b]
}

proof fn lemma_wf_update<M>(s: Seq<ReqData<M>>, ri: int, rec: ReqData<M>)
    requires
        recs_wf(s),
        0 <= ri < s.len(),
        rec.req_id == s[ri].req_id,
        rec.client_req_id == s[ri].client_req_id,
        rec.llg_infos@.len() <= rec.llgs@.len(),
        rec.llg_infos@ == s[ri].llg_infos@,
        rec.llg_stopped@.len() == rec.llgs@.len(),
    ensures
        recs_wf(s.update(ri, rec)),
{
    let t = s.update(ri, rec);
    assert forall|i: int, j: int| 0 <= i < j < t.len() implies
        t[i].req_id != t[j].req_id && t[i].client_req_id != t[j].client_req_id by {
        assert(t[i].req_id == s[i].req_id && t[i].client_req_id == s[i].client_req_id);
        assert(t[j].req_id == s[j].req_id && t[j].client_req_id == s[j].client_req_id);
    }
    assert forall|i: int| 0 <= i < t.len() implies (#[trigger] t[i]).llg_infos@.len() <= t[i].llgs@.len()
        && no_dups(t[i].llg_infos@) && t[i].llg_stopped@.len() == t[i].llgs@.len() by {
        if i != ri {
            assert(t[i] == s[i]);
        }
    }
}

impl<M> RequestTable<M> {
    pub open spec fn wf(&self) -> bool {
        recs_wf(self.recs@)
    }

    pub open spec fn has_client(&self, c: u64) -> bool {
        exists|i: int| 0 <= i < self.recs@.len() && (#[trigger] self.recs@[i]).client_req_id == c
    }

    pub open spec fn has_req(&self, r: u64) -> bool {
        exists|i: int| 0 <= i < self.recs@.len() && (#[trigger] self.recs@[i]).req_id == r
    }

    pub fn new() -> (r: RequestTable<M>)
        ensures
            r.wf(),
            r.recs@.len() == 0,
    {
        RequestTable { recs: Vec::new() }
    }

    pub fn len(&self) -> (r: usize)
        ensures
            r == self.recs@.len(),
    {
        self.recs.len()
    }

    /// Position of the record of client id `c`.
    pub fn find_client(&self, c: u64) -> (r: Option<usize>)
        ensures
            r matches Some(i) ==> i < self.recs@.len() && self.recs@[i as int].client_req_id == c,
            r is None <==> !self.has_client(c),
    {
        let mut i: usize = 0;
        while i < self.recs.len()
            invariant
                i <= self.recs@.len(),
                forall|j: int| 0 <= j < i ==> (#[trigger] self.recs@[j]).client_req_id != c,
            decreases self.recs@.len() - i,
        {
            if self.recs[i].client_req_id == c {
                return Some(i);
            }
            i = i + 1;
        }
        None
    }

    /// Position of the record of engine request id `r`.
    pub fn find_req(&self, req_id: u64) -> (r: Option<usize>)
        ensures
            r matches Some(i) ==> i < self.recs@.len() && self.recs@[i as int].req_id == req_id,
            r is None <==> !self.has_req(req_id),
    {
        let mut i: usize = 0;
        while i < self.recs.len()
            invariant
                i <= self.recs@.len(),
                forall|j: int| 0 <= j < i ==> (#[trigger] self.recs@[j]).req_id != req_id,
            decreases self.recs@.len() - i,
        {
            if self.recs[i].req_id == req_id {
                return Some(i);
            }
            i = i + 1;
        }
        None
    }

    /// Records a request that the engine accepted under `req_id`, with one
    /// slot per grammar machine, none of them bound yet.
    pub fn insert_request(&mut self, req_id: u64, client_req_id: u64, prompt_len: usize, llgs: Vec<M>) -> (r: Result<(), RequestError>)
        requires
            old(self).wf(),
        ensures
            final(self).wf(),
            r is Err <==> old(self).has_req(req_id) || old(self).has_client(client_req_id),
            r is Err ==> r == Err::<(), RequestError>(RequestError::DuplicateId) && final(self).recs@ == old(self).recs@,
            r is Ok ==> {
                &&& final(self).recs@.len() == old(self).recs@.len() + 1
                &&& final(self).recs@.subrange(0, old(self).recs@.len() as int) == old(self).recs@
                &&& final(self).recs@.last().req_id == req_id
                &&& final(self).recs@.last().client_req_id == client_req_id
                &&& final(self).recs@.last().prompt_len == prompt_len
                &&& final(self).recs@.last().logs@.len() == 0
                &&& final(self).recs@.last().error is None
                &&& final(self).recs@.last().llg_infos@.len() == 0
                &&& final(self).recs@.last().llgs@ == llgs@.map_values(|m: M| Some(m))
                &&& final(self).recs@.last().llg_stopped@ == Seq::new(llgs@.len(), |i: int| false)
            },
    {
        if self.find_req(req_id).is_some() || self.find_client(client_req_id).is_some() {
            return Err(RequestError::DuplicateId);
        }
        let ghost src = llgs@;
        let mut llgs = llgs;
        let mut slots: Vec<Option<M>> = Vec::new();
        while llgs.len() > 0
            invariant
                slots@.len() + llgs@.len() == src.len(),
                llgs@ == src.subrange(slots@.len() as int, src.len() as int),
                slots@ == src.subrange(0, slots@.len() as int).map_values(|m: M| Some(m)),
            decreases llgs@.len(),
        {
            let m = llgs.remove(0);
            slots.push(Some(m));
            proof {
                assert(llgs@ =~= src.subrange(slots@.len() as int, src.len() as int));
                assert(slots@ =~= src.subrange(0, slots@.len() as int).map_values(|m: M| Some(m)));
            }
        }
        proof {
            assert(src.subrange(0, src.len() as int) =~= src);
        }
        let mut stopped: Vec<bool> = Vec::new();
        while stopped.len() < slots.len()
            invariant
                stopped@.len() <= slots@.len(),
                forall|i: int| 0 <= i < stopped@.len() ==> stopped@[i] == false,
            decreases slots@.len() - stopped@.len(),
        {
            stopped.push(false);
        }
        proof {
            assert(stopped@ =~= Seq::new(src.len(), |i: int| false));
        }
        let ghost before = self.recs@;
        self.recs.push(ReqData {
            req_id,
            client_req_id,
            logs: String::new(),
            error: None,
            llgs: slots,
            llg_stopped: stopped,
            llg_infos: Vec::new(),
            prompt_len,
        });
        proof {
            assert(self.recs@.subrange(0, before.len() as int) =~= before);
        }
        Ok(())
    }

    /// Moves the machine of slot `li` of record `ri` out, leaving the slot empty.
    fn take_slot(&mut self, ri: usize, li: usize) -> (r: Option<M>)
        requires
            old(self).wf(),
            ri < old(self).recs@.len(),
            li < old(self).recs@[ri as int].llgs@.len(),
        ensures
            final(self).wf(),
            evolves_all(old(self).recs@, final(self).recs@),
            forall|k: int| 0 <= k < final(self).recs@.len() && k != ri ==> final(self).recs@[k] == old(self).recs@[k],
            final(self).recs@[ri as int].llg_infos@ == old(self).recs@[ri as int].llg_infos@,
            final(self).recs@[ri as int].llgs@ == old(self).recs@[ri as int].llgs@.update(li as int, None),
            r == old(self).recs@[ri as int].llgs@[li as int],
    {
        let ghost before = self.recs@;
        let mut rec = self.recs.remove(ri);
        let ghost rb = rec.llgs@;
        let m = rec.llgs.remove(li);
        rec.llgs.insert(li, None);
        proof {
            assert(rec.llgs@ =~= rb.update(li as int, None));
        }
        self.recs.insert(ri, rec);
        proof {
            assert(self.recs@ =~= before.update(ri as int, self.recs@[ri as int]));
            let a = before[ri as int];
            let b = self.recs@[ri as int];
            assert(b.llg_infos@.subrange(0, a.llg_infos@.len() as int) =~= a.llg_infos@);
            assert(evolves(a, b));
            assert forall|k: int| 0 <= k < before.len() implies evolves(#[trigger] before[k], self.recs@[k]) by {
                if k != ri {
                    assert(self.recs@[k] == before[k]);
                    assert(before[k].llg_infos@.subrange(0, before[k].llg_infos@.len() as int) =~= before[k].llg_infos@);
                }
            }
        }
        m
    }

    /// Binds sequence `seq` to the next unbound slot of record `ri`; returns the slot.
    fn bind_next(&mut self, ri: usize, seq: u64) -> (r: usize)
        requires
            old(self).wf(),
            ri < old(self).recs@.len(),
            old(self).recs@[ri as int].llg_infos@.len() < old(self).recs@[ri as int].llgs@.len(),
            !old(self).recs@[ri as int].llg_infos@.contains(seq),
        ensures
            final(self).wf(),
            evolves_all(old(self).recs@, final(self).recs@),
            forall|k: int| 0 <= k < final(self).recs@.len() && k != ri ==> final(self).recs@[k] == old(self).recs@[k],
            final(self).recs@[ri as int].llg_infos@ == old(self).recs@[ri as int].llg_infos@.push(seq),
            final(self).recs@[ri as int].llgs@ == old(self).recs@[ri as int].llgs@,
            r == old(self).recs@[ri as int].llg_infos@.len(),
    {
        let ghost before = self.recs@;
        let mut rec = self.recs.remove(ri);
        let r = rec.llg_infos.len();
        rec.llg_infos.push(seq);
        self.recs.insert(ri, rec);
        proof {
            assert(self.recs@ =~= before.update(ri as int, self.recs@[ri as int]));
            let a = before[ri as int];
            let b = self.recs@[ri as int];
            assert(b.llg_infos@.subrange(0, a.llg_infos@.len() as int) =~= a.llg_infos@);
            assert(evolves(a, b));
            assert forall|k: int| 0 <= k < before.len() implies evolves(#[trigger] before[k], self.recs@[k]) by {
                if k != ri {
                    assert(self.recs@[k] == before[k]);
                    assert(before[k].llg_infos@.subrange(0, before[k].llg_infos@.len() as int) =~= before[k].llg_infos@);
                }
            }
        }
        r
    }

    /// Binds the batch's unbound sequences: in ascending order of sequence
    /// id, each to the next free slot of its request, as far as slots allow.
    /// Only bindings change.
    fn bind_new(&mut self, entries: &Vec<EntryInfo>)
        requires
            old(self).wf(),
        ensures
            final(self).wf(),
            evolves_all(old(self).recs@, final(self).recs@),
            forall|ri: int| 0 <= ri < final(self).recs@.len() ==>
                (#[trigger] final(self).recs@[ri]).llgs@ == old(self).recs@[ri].llgs@,
            forall|ri: int| 0 <= ri < final(self).recs@.len() ==>
                bound_after(old(self).recs@[ri], #[trigger] final(self).recs@[ri], entries@),
    {
        let ghost orig = self.recs@;
        proof { lemma_evolves_refl(orig); }
        let mut deferred: Vec<(u64, usize)> = Vec::new();
        let mut idx: usize = 0;
        while idx < entries.len()
            invariant
                idx <= entries@.len(),
                self.recs@ == orig,
                recs_wf(orig),
                forall|k: int| 0 <= k < deferred@.len() ==> (#[trigger] deferred@[k]).1 < entries@.len()
                    && deferred@[k].0 == entries@[deferred@[k].1 as int].seq_id,
                forall|i: int, ri: int| 0 <= i < idx && 0 <= ri < orig.len()
                    && (#[trigger] orig[ri]).client_req_id == (#[trigger] entries@[i]).client_req_id
                    && !orig[ri].llg_infos@.contains(entries@[i].seq_id)
                    ==> deferred@.contains((entries@[i].seq_id, i as usize)),
            decreases entries@.len() - idx,
        {
            let e = entries[idx];
            let ghost d0 = deferred@;
            let found = self.find_client(e.client_req_id);
            let mut pos: Option<usize> = None;
            if let Some(ri) = found {
                pos = position_of(&self.recs[ri].llg_infos, e.seq_id);
                if pos.is_none() {
                    deferred.push((e.seq_id, idx));
                }
            }
            proof {
                assert forall|i: int, ri: int| 0 <= i < idx + 1 && 0 <= ri < orig.len()
                    && (#[trigger] orig[ri]).client_req_id == (#[trigger] entries@[i]).client_req_id
                    && !orig[ri].llg_infos@.contains(entries@[i].seq_id)
                    implies deferred@.contains((entries@[i].seq_id, i as usize)) by {
                    if i < idx {
                        let w = choose|w: int| 0 <= w < d0.len() && d0[w] == (entries@[i].seq_id, i as usize);
                        assert(deferred@[w] == d0[w]);
                    } else {
                        match found {
                            None => {
                                assert(self.has_client(e.client_req_id));
                            }
                            Some(r0) => {
                                assert(r0 == ri);
                                if let Some(li) = pos {
                                    assert(orig[ri].llg_infos@[li as int] == e.seq_id);
                                }
                                assert(deferred@[deferred@.len() - 1] == (e.seq_id, idx));
                            }
                        }
                    }
                }
            }
            idx = idx + 1;
        }
        let ghost dv = deferred@;
        let sorted = sort_by_seq(deferred);
        proof {
            assert forall|k: int| 0 <= k < sorted@.len() implies (#[trigger] sorted@[k]).1 < entries@.len()
                && sorted@[k].0 == entries@[sorted@[k].1 as int].seq_id by {
                assert(dv.contains(sorted@[k]));
                let j = choose|j: int| 0 <= j < dv.len() && dv[j] == sorted@[k];
                assert(dv[j].1 < entries@.len());
            }
        }
        let mut k: usize = 0;
        while k < sorted.len()
            invariant
                self.wf(),
                k <= sorted@.len(),
                sorted_by_seq(sorted@),
                evolves_all(orig, self.recs@),
                forall|ri: int| 0 <= ri < orig.len() ==> (#[trigger] self.recs@[ri]).llgs@ == orig[ri].llgs@,
                forall|ri: int| 0 <= ri < orig.len() ==> ascending_from((#[trigger] self.recs@[ri]).llg_infos@, orig[ri].llg_infos@.len() as int),
                forall|ri: int, a: int, j: int| 0 <= ri < orig.len() && orig[ri].llg_infos@.len() <= a < self.recs@[ri].llg_infos@.len()
                    && k <= j < sorted@.len() ==> (#[trigger] self.recs@[ri].llg_infos@[a]) <= (#[trigger] sorted@[j]).0,
                forall|ri: int, a: int| 0 <= ri < orig.len() && orig[ri].llg_infos@.len() <= a < self.recs@[ri].llg_infos@.len() ==>
                    entry_of(entries@, orig[ri].client_req_id, #[trigger] self.recs@[ri].llg_infos@[a])
                    && !orig[ri].llg_infos@.contains(self.recs@[ri].llg_infos@[a]),
                forall|j: int, ri: int| 0 <= j < k && 0 <= ri < orig.len()
                    && (#[trigger] self.recs@[ri]).client_req_id == entries@[(#[trigger] sorted@[j]).1 as int].client_req_id
                    ==> self.recs@[ri].llg_infos@.contains(sorted@[j].0)
                        || self.recs@[ri].llg_infos@.len() == self.recs@[ri].llgs@.len(),
                forall|i: int| 0 <= i < sorted@.len() ==> (#[trigger] sorted@[i]).1 < entries@.len()
                    && sorted@[i].0 == entries@[sorted@[i].1 as int].seq_id,
            decreases sorted@.len() - k,
        {
            let (seq, idx) = sorted[k];
            let e = entries[idx];
            let ghost before = self.recs@;
            proof { lemma_evolves_refl(before); }
            if let Some(ri) = self.find_client(e.client_req_id) {
                if self.recs[ri].llg_infos.len() < self.recs[ri].llgs.len()
                    && position_of(&self.recs[ri].llg_infos, seq).is_none() {
                    let li = self.bind_next(ri, seq);
                    proof {
                        lemma_evolves_trans(orig, before, self.recs@);
                        assert forall|r2: int, a: int, j: int| 0 <= r2 < orig.len() && orig[r2].llg_infos@.len() <= a < self.recs@[r2].llg_infos@.len()
                            && k + 1 <= j < sorted@.len() implies (#[trigger] self.recs@[r2].llg_infos@[a]) <= (#[trigger] sorted@[j]).0 by {
                            if r2 != ri {
                                assert(self.recs@[r2] == before[r2]);
                                assert(before[r2].llg_infos@[a] <= sorted@[j].0);
                            } else if a < before[r2].llg_infos@.len() {
                                assert(before[r2].llg_infos@[a] <= sorted@[j].0);
                            } else {
                                assert(sorted@[k as int].0 <= sorted@[j].0);
                            }
                        }
                        assert forall|r2: int| 0 <= r2 < orig.len() implies ascending_from((#[trigger] self.recs@[r2]).llg_infos@, orig[r2].llg_infos@.len() as int) by {
                            if r2 != ri {
                                assert(self.recs@[r2] == before[r2]);
                            } else {
                                let s1 = self.recs@[r2].llg_infos@;
                                assert forall|a: int, b: int| orig[r2].llg_infos@.len() <= a < b < s1.len() implies s1[a] <= s1[b] by {
                                    if b < before[r2].llg_infos@.len() {
                                        assert(ascending_from(before[r2].llg_infos@, orig[r2].llg_infos@.len() as int));
                                    } else {
                                        assert(s1[b] == seq);
                                        assert(before[r2].llg_infos@[a] <= sorted@[k as int].0);
                                    }
                                }
                            }
                        }
                        assert forall|r2: int, a: int| 0 <= r2 < orig.len() && orig[r2].llg_infos@.len() <= a < self.recs@[r2].llg_infos@.len() implies
                            entry_of(entries@, orig[r2].client_req_id, #[trigger] self.recs@[r2].llg_infos@[a])
                            && !orig[r2].llg_infos@.contains(self.recs@[r2].llg_infos@[a]) by {
                            if r2 != ri {
                                assert(self.recs@[r2] == before[r2]);
                            } else if a < before[r2].llg_infos@.len() {
                                assert(self.recs@[r2].llg_infos@[a] == before[r2].llg_infos@[a]);
                            } else {
                                assert(self.recs@[r2].llg_infos@[a] == seq);
                                assert(entries@[idx as int].client_req_id == orig[r2].client_req_id);
                                let ol = orig[r2].llg_infos@;
                                if ol.contains(seq) {
                                    let w = choose|w: int| 0 <= w < ol.len() && ol[w] == seq;
                                    assert(before[r2].llg_infos@.subrange(0, ol.len() as int)[w] == before[r2].llg_infos@[w]);
                                    assert(before[r2].llg_infos@.contains(seq));
                                }
                            }
                        }
                    }
                }
            }
            assert(evolves_all(before, self.recs@));
            proof {
                assert forall|j: int, r2: int| 0 <= j < k + 1 && 0 <= r2 < orig.len()
                    && (#[trigger] self.recs@[r2]).client_req_id == entries@[(#[trigger] sorted@[j]).1 as int].client_req_id
                    implies self.recs@[r2].llg_infos@.contains(sorted@[j].0)
                        || self.recs@[r2].llg_infos@.len() == self.recs@[r2].llgs@.len() by {
                    let now = self.recs@[r2].llg_infos@;
                    let was = before[r2].llg_infos@;
                    assert(before[r2].client_req_id == self.recs@[r2].client_req_id);
                    assert(evolves(before[r2], self.recs@[r2]));
                    if j < k {
                        if was.contains(sorted@[j].0) {
                            let w = choose|w: int| 0 <= w < was.len() && was[w] == sorted@[j].0;
                            assert(now.subrange(0, was.len() as int)[w] == now[w]);
                        }
                    } else {
                        assert(sorted@[j] == (seq, idx));
                        assert(self.recs@[r2].client_req_id == e.client_req_id);
                        if now.len() < self.recs@[r2].llgs@.len() && !was.contains(seq) {
                            assert(now[now.len() - 1] == seq);
                        }
                        if was.contains(seq) {
                            let w = choose|w: int| 0 <= w < was.len() && was[w] == seq;
                            assert(now.subrange(0, was.len() as int)[w] == now[w]);
                        }
                    }
                }
            }
            k = k + 1;
        }
        proof {
            assert forall|ri: int| 0 <= ri < self.recs@.len() implies
                bound_after(orig[ri], #[trigger] self.recs@[ri], entries@) by {
                let a = orig[ri];
                let b = self.recs@[ri];
                assert forall|i: int| 0 <= i < entries@.len() && (#[trigger] entries@[i]).client_req_id == a.client_req_id
                    && !a.llg_infos@.contains(entries@[i].seq_id) implies
                    b.llg_infos@.contains(entries@[i].seq_id) || b.llg_infos@.len() == b.llgs@.len() by {
                    assert(orig[ri].client_req_id == entries@[i].client_req_id);
                    assert(dv.contains((entries@[i].seq_id, i as usize)));
                    assert(sorted@.contains((entries@[i].seq_id, i as usize)));
                    let j = choose|j: int| 0 <= j < sorted@.len() && sorted@[j] == (entries@[i].seq_id, i as usize);
                    assert(self.recs@[ri].client_req_id == entries@[sorted@[j].1 as int].client_req_id);
                }
            }
        }
    }

    /// Checks out the machines of a batch step's entries. First the batch's
    /// unbound sequences are bound, in ascending order of sequence id, to
    /// the next free slots of their requests, whatever their order in the
    /// batch. Then each entry whose sequence is bound at a slot that holds a
    /// machine takes that machine out, leaving the slot empty. Entries with
    /// no request, no free slot or an empty slot get no item.
    #[verifier::rlimit(80)]
    pub fn check_out(&mut self, entries: &Vec<EntryInfo>) -> (r: Vec<Pending<M>>)
        requires
            old(self).wf(),
            distinct_seqs(entries@),
        ensures
            final(self).wf(),
            evolves_all(old(self).recs@, final(self).recs@),
            forall|ri: int| 0 <= ri < final(self).recs@.len() ==>
                bound_after(old(self).recs@[ri], #[trigger] final(self).recs@[ri], entries@),
            forall|k: int| 0 <= k < r@.len() ==> (#[trigger] r@[k]).entry_idx < entries@.len()
                && pending_bound(final(self).recs@, entries@[r@[k].entry_idx as int], r@[k])
                && took_machine(old(self).recs@, r@[k]),
            forall|k1: int, k2: int| 0 <= k1 < k2 < r@.len() ==> (#[trigger] r@[k1]).entry_idx != (#[trigger] r@[k2]).entry_idx,
            forall|i: int, ri: int, j: int| 0 <= i < entries@.len() && 0 <= ri < final(self).recs@.len()
                && 0 <= j < final(self).recs@[ri].llg_infos@.len()
                && (#[trigger] final(self).recs@[ri]).client_req_id == (#[trigger] entries@[i]).client_req_id
                && (#[trigger] final(self).recs@[ri].llg_infos@[j]) == entries@[i].seq_id
                && old(self).recs@[ri].llgs@[j] is Some
                && !old(self).recs@[ri].llg_stopped@[j]
                ==> exists|k: int| 0 <= k < r@.len() && (#[trigger] r@[k]).entry_idx == i,
            forall|ri: int, j: int| 0 <= ri < final(self).recs@.len() && 0 <= j < final(self).recs@[ri].llgs@.len()
                && (#[trigger] final(self).recs@[ri].llgs@[j]) != old(self).recs@[ri].llgs@[j]
                ==> final(self).recs@[ri].llgs@[j] is None
                    && exists|k: int| 0 <= k < r@.len() && (#[trigger] r@[k]).client_req_id == final(self).recs@[ri].client_req_id
                        && r@[k].llg_idx == j,
    {
        let ghost orig = self.recs@;
        self.bind_new(entries);
        let ghost mid = self.recs@;
        proof { lemma_evolves_refl(mid); }
        let mut pending: Vec<Pending<M>> = Vec::new();
        let mut idx: usize = 0;
        while idx < entries.len()
            invariant
                self.wf(),
                idx <= entries@.len(),
                distinct_seqs(entries@),
                orig.len() == mid.len(),
                evolves_all(orig, mid),
                evolves_all(mid, self.recs@),
                forall|ri: int| 0 <= ri < mid.len() ==> (#[trigger] self.recs@[ri]).llg_infos@ == mid[ri].llg_infos@,
                forall|ri: int| 0 <= ri < mid.len() ==> (#[trigger] mid[ri]).llgs@ == orig[ri].llgs@,
                forall|k: int| 0 <= k < pending@.len() ==> (#[trigger] pending@[k]).entry_idx < idx
                    && pending_bound(self.recs@, entries@[pending@[k].entry_idx as int], pending@[k])
                    && took_machine(orig, pending@[k]),
                forall|k1: int, k2: int| 0 <= k1 < k2 < pending@.len() ==> (#[trigger] pending@[k1]).entry_idx < (#[trigger] pending@[k2]).entry_idx,
                forall|i: int, ri: int, j: int| 0 <= i < idx && 0 <= ri < mid.len()
                    && 0 <= j < mid[ri].llg_infos@.len()
                    && (#[trigger] mid[ri]).client_req_id == (#[trigger] entries@[i]).client_req_id
                    && (#[trigger] mid[ri].llg_infos@[j]) == entries@[i].seq_id
                    && orig[ri].llgs@[j] is Some
                    && !orig[ri].llg_stopped@[j]
                    ==> exists|k: int| 0 <= k < pending@.len() && (#[trigger] pending@[k]).entry_idx == i,
                forall|ri: int, j: int| 0 <= ri < mid.len() && 0 <= j < mid[ri].llgs@.len()
                    && (#[trigger] self.recs@[ri].llgs@[j]) != orig[ri].llgs@[j]
                    ==> self.recs@[ri].llgs@[j] is None
                        && exists|k: int| 0 <= k < pending@.len() && (#[trigger] pending@[k]).client_req_id == mid[ri].client_req_id
                            && pending@[k].llg_idx == j,
            decreases entries@.len() - idx,
        {
            let e = entries[idx];
            let ghost before = self.recs@;
            let ghost prev = pending@;
            if let Some(ri) = self.find_client(e.client_req_id) {
                if let Some(li) = position_of(&self.recs[ri].llg_infos, e.seq_id) {
                    if self.recs[ri].llgs[li].is_some() && !self.recs[ri].llg_stopped[li] {
                        let llg = self.take_slot(ri, li);
                        let prompt_len = self.recs[ri].prompt_len;
                        let item = Pending { entry_idx: idx, client_req_id: e.client_req_id, llg_idx: li, prompt_len, llg };
                        proof {
                            lemma_evolves_trans(mid, before, self.recs@);
                            assert forall|k: int| 0 <= k < prev.len() implies
                                pending_bound(self.recs@, entries@[prev[k].entry_idx as int], #[trigger] prev[k]) by {
                                lemma_pending_kept(before, self.recs@, entries@[prev[k].entry_idx as int], prev[k]);
                            }
                            assert forall|k: int| 0 <= k < mid.len() implies (#[trigger] self.recs@[k]).llg_infos@ == mid[k].llg_infos@ by {
                                if k != ri { assert(self.recs@[k] == before[k]); }
                            }
                            assert(self.recs@[ri as int].client_req_id == e.client_req_id);
                            assert(before[ri as int].llgs@[li as int] == orig[ri as int].llgs@[li as int]);
                            assert(pending_bound(self.recs@, e, item));
                            assert forall|ri2: int| 0 <= ri2 < orig.len() && (#[trigger] orig[ri2]).client_req_id == item.client_req_id implies
                                item.llg_idx < orig[ri2].llgs@.len() && item.llg == orig[ri2].llgs@[item.llg_idx as int] by {
                                assert(evolves(orig[ri2], mid[ri2]));
                                assert(evolves(mid[ri2], before[ri2]));
                                assert(mid[ri2].llgs@ == orig[ri2].llgs@);
                                assert(before[ri2].client_req_id == item.client_req_id);
                                assert(ri2 == ri as int);
                                assert(before[ri2].llg_stopped@ == orig[ri2].llg_stopped@);
                            }
                            assert(took_machine(orig, item));
                        }
                        pending.push(item);
                        proof {
                            assert(pending@[prev.len() as int] == item);
                            assert forall|ri2: int, j: int| 0 <= ri2 < mid.len() && 0 <= j < mid[ri2].llgs@.len()
                                && (#[trigger] self.recs@[ri2].llgs@[j]) != orig[ri2].llgs@[j]
                                implies self.recs@[ri2].llgs@[j] is None
                                    && exists|k: int| 0 <= k < pending@.len() && (#[trigger] pending@[k]).client_req_id == mid[ri2].client_req_id
                                        && pending@[k].llg_idx == j by {
                                if ri2 == ri && j == li {
                                    assert(pending@[prev.len() as int].client_req_id == mid[ri2].client_req_id);
                                } else {
                                    assert(self.recs@[ri2].llgs@[j] == before[ri2].llgs@[j]);
                                    let k = choose|k: int| 0 <= k < prev.len() && (#[trigger] prev[k]).client_req_id == mid[ri2].client_req_id
                                        && prev[k].llg_idx == j;
                                    assert(pending@[k] == prev[k]);
                                }
                            }
                        }
                    }
                }
            }
            proof {
                assert forall|k: int| 0 <= k < pending@.len() implies (#[trigger] pending@[k]).entry_idx < idx + 1
                    && pending_bound(self.recs@, entries@[pending@[k].entry_idx as int], pending@[k])
                    && took_machine(orig, pending@[k]) by {
                    if k < prev.len() { assert(pending@[k] == prev[k]); }
                }
                assert forall|i: int, r2: int, j: int| 0 <= i < idx + 1 && 0 <= r2 < mid.len()
                    && 0 <= j < mid[r2].llg_infos@.len()
                    && (#[trigger] mid[r2]).client_req_id == (#[trigger] entries@[i]).client_req_id
                    && (#[trigger] mid[r2].llg_infos@[j]) == entries@[i].seq_id
                    && orig[r2].llgs@[j] is Some
                    && !orig[r2].llg_stopped@[j]
                    implies exists|k: int| 0 <= k < pending@.len() && (#[trigger] pending@[k]).entry_idx == i by {
                    if i < idx {
                        let k = choose|k: int| 0 <= k < prev.len() && (#[trigger] prev[k]).entry_idx == i;
                        assert(pending@[k] == prev[k]);
                    } else {
                        assert(mid[r2].client_req_id == e.client_req_id);
                        assert(before[r2].client_req_id == e.client_req_id);
                        assert(before[r2].llg_infos@[j] == e.seq_id);
                        if before[r2].llgs@[j] != orig[r2].llgs@[j] {
                            let k = choose|k: int| 0 <= k < prev.len() && (#[trigger] prev[k]).client_req_id == mid[r2].client_req_id
                                && prev[k].llg_idx == j;
                            let ek = entries@[prev[k].entry_idx as int];
                            assert(pending_bound(before, ek, prev[k]));
                            assert(before[r2].client_req_id == prev[k].client_req_id);
                            assert(before[r2].llg_infos@[prev[k].llg_idx as int] == ek.seq_id);
                            assert(ek.seq_id == entries@[i].seq_id);
                            assert(false);
                        }
                        assert(pending@.len() == prev.len() + 1);
                        assert(pending@[prev.len() as int].entry_idx == i);
                    }
                }
            }
            idx = idx + 1;
        }
        proof {
            assert forall|ri: int| 0 <= ri < self.recs@.len() implies
                bound_after(orig[ri], #[trigger] self.recs@[ri], entries@) by {
                assert(bound_after(orig[ri], mid[ri], entries@));
            }
            lemma_evolves_trans(orig, mid, self.recs@);
        }
        pending
    }

    /// Checks a computed sequence back in: its machine returns to slot
    /// `llg_idx`, the slot is marked stopped if the sequence stopped, its
    /// new logs are appended, and its error is recorded unless the request
    /// already has one. Returns false, and changes
    /// nothing, when the request is gone or has no such slot.
    pub fn check_in(&mut self, client_req_id: u64, llg_idx: usize, llg: M, logs: String, error: Option<String>, stopped: bool) -> (r: bool)
        requires
            old(self).wf(),
        ensures
            final(self).wf(),
            final(self).recs@.len() == old(self).recs@.len(),
            !old(self).has_client(client_req_id) ==> !r,
            !r ==> final(self).recs@ == old(self).recs@,
            forall|ri: int| 0 <= ri < old(self).recs@.len() && (#[trigger] old(self).recs@[ri]).client_req_id == client_req_id ==> {
                &&& r == (llg_idx < old(self).recs@[ri].llgs@.len())
                &&& r ==> checked_in(old(self).recs@[ri], final(self).recs@[ri], llg_idx as int, llg, logs@, error, stopped)
            },
            forall|ri: int| 0 <= ri < old(self).recs@.len() && (#[trigger] old(self).recs@[ri]).client_req_id != client_req_id ==>
                final(self).recs@[ri] == old(self).recs@[ri],
    {
        match self.find_client(client_req_id) {
            None => false,
            Some(ri) => {
                if llg_idx >= self.recs[ri].llgs.len() {
                    return false;
                }
                let ghost before = self.recs@;
                let mut rec = self.recs.remove(ri);
                let ghost a = rec;
                rec.llgs.set(llg_idx, Some(llg));
                if stopped {
                    rec.llg_stopped.set(llg_idx, true);
                }
                proof {
                    assert(rec.llg_stopped@ =~= a.llg_stopped@.update(llg_idx as int, a.llg_stopped@[llg_idx as int] || stopped));
                }
                let merged = rec.logs.concat(logs.as_str());
                rec.logs = merged;
                if rec.error.is_none() {
                    rec.error = error;
                }
                proof {
                    lemma_wf_update(before, ri as int, rec);
                }
                self.recs.insert(ri, rec);
                proof {
                    assert(self.recs@ =~= before.update(ri as int, rec));
                }
                true
            }
        }
    }

    /// Takes what a response chunk for engine request `req_id` carries from
    /// the table: the record's logs, the final machine of sequence `seq_idx`
    /// when `finished` and the request has grammars, and the record's error
    /// when the chunk reports none.
    pub fn route_response(&mut self, req_id: u64, seq_idx: usize, finished: bool, resp_has_error: bool) -> (r: Route<M>)
        requires
            old(self).wf(),
        ensures
            final(self).wf(),
            final(self).recs@.len() == old(self).recs@.len(),
            !old(self).has_req(req_id) ==> r is Unknown && final(self).recs@ == old(self).recs@,
            forall|ri: int| 0 <= ri < old(self).recs@.len() && (#[trigger] old(self).recs@[ri]).req_id != req_id ==>
                final(self).recs@[ri] == old(self).recs@[ri],
            forall|ri: int| 0 <= ri < old(self).recs@.len() && (#[trigger] old(self).recs@[ri]).req_id == req_id ==> {
                let a = old(self).recs@[ri];
                let b = final(self).recs@[ri];
                let takes = finished && seq_idx < a.llgs@.len();
                &&& r matches Route::Deliver { logs, final_llg, error }
                &&& logs@ == a.logs@
                &&& error == (if resp_has_error { None } else { a.error })
                &&& final_llg == (if takes { a.llgs@[seq_idx as int] } else { None })
                &&& b.llgs@ == (if takes { a.llgs@.update(seq_idx as int, None) } else { a.llgs@ })
                &&& b.logs@.len() == 0
                &&& b.req_id == a.req_id && b.client_req_id == a.client_req_id
                &&& b.prompt_len == a.prompt_len && b.error == a.error
                &&& b.llg_infos@ == a.llg_infos@
                &&& b.llg_stopped@ == a.llg_stopped@
            },
    {
        match self.find_req(req_id) {
            None => Route::Unknown,
            Some(ri) => {
                let ghost before = self.recs@;
                let mut rec = self.recs.remove(ri);
                let mut logs = String::new();
                std::mem::swap(&mut logs, &mut rec.logs);
                let mut final_llg: Option<M> = None;
                if finished && seq_idx < rec.llgs.len() {
                    final_llg = rec.llgs.remove(seq_idx);
                    rec.llgs.insert(seq_idx, None);
                }
                let error = if resp_has_error {
                    None
                } else {
                    match &rec.error {
                        Some(e) => Some(e.clone()),
                        None => None,
                    }
                };
                proof {
                    let a = before[ri as int];
                    if finished && seq_idx < a.llgs@.len() {
                        assert(rec.llgs@ =~= a.llgs@.update(seq_idx as int, None));
                    }
                    lemma_wf_update(before, ri as int, rec);
                }
                self.recs.insert(ri, rec);
                proof {
                    assert(self.recs@ =~= before.update(ri as int, rec));
                }
                Route::Deliver { logs, final_llg, error }
            }
        }
    }

    /// Removes the record of engine request `req_id`, if there is one; the
    /// caller then asks the engine to cancel the request.
    pub fn cancel_request(&mut self, req_id: u64) -> (r: bool)
        requires
            old(self).wf(),
        ensures
            final(self).wf(),
            r == old(self).has_req(req_id),
            !final(self).has_req(req_id),
            !r ==> final(self).recs@ == old(self).recs@,
            r ==> exists|i: int| 0 <= i < old(self).recs@.len()
                && old(self).recs@[i].req_id == req_id
                && final(self).recs@ == old(self).recs@.remove(i),
    {
        self.drop_request_data(req_id)
    }

    /// Settles the table after a chunk of engine request `req_id` was handed
    /// to the client's channel (`delivered`) or could not be.
    pub fn after_delivery(&mut self, req_id: u64, delivered: bool, is_req_final: bool) -> (r: Delivery)
        requires
            old(self).wf(),
        ensures
            final(self).wf(),
            !delivered ==> r == Delivery::CancelEngine && !final(self).has_req(req_id),
            delivered && is_req_final ==> r == Delivery::Finished && !final(self).has_req(req_id),
            delivered && !is_req_final ==> r == Delivery::Continue && final(self).recs@ == old(self).recs@,
            r != Delivery::Continue ==> (old(self).has_req(req_id) ==> exists|i: int| 0 <= i < old(self).recs@.len()
                && old(self).recs@[i].req_id == req_id
                && final(self).recs@ == old(self).recs@.remove(i)),
            r != Delivery::Continue && !old(self).has_req(req_id) ==> final(self).recs@ == old(self).recs@,
    {
        if !delivered {
            let _ = self.cancel_request(req_id);
            Delivery::CancelEngine
        } else if is_req_final {
            let _ = self.drop_request_data(req_id);
            Delivery::Finished
        } else {
            Delivery::Continue
        }
    }

    /// Removes the record of engine request `req_id`, if there is one.
    pub fn drop_request_data(&mut self, req_id: u64) -> (r: bool)
        requires
            old(self).wf(),
        ensures
            final(self).wf(),
            r == old(self).has_req(req_id),
            !final(self).has_req(req_id),
            !r ==> final(self).recs@ == old(self).recs@,
            r ==> exists|i: int| 0 <= i < old(self).recs@.len()
                && old(self).recs@[i].req_id == req_id
                && final(self).recs@ == old(self).recs@.remove(i),
    {
        match self.find_req(req_id) {
            None => false,
            Some(i) => {
                let ghost before = self.recs@;
                let _gone = self.recs.remove(i);
                proof {
                    assert forall|j: int| 0 <= j < self.recs@.len() implies (#[trigger] self.recs@[j]).req_id != req_id by {
                        if j < i {
                            assert(self.recs@[j] == before[j]);
                        } else {
                            assert(self.recs@[j] == before[j + 1]);
                        }
                    }
                    assert forall|a: int, b: int| 0 <= a < b < self.recs@.len() implies
                        self.recs@[a].req_id != self.recs@[b].req_id
                        && self.recs@[a].client_req_id != self.recs@[b].client_req_id by {
                        let a0 = if a < i { a } else { a + 1 };
                        let b0 = if b < i { b } else { b + 1 };
                        assert(self.recs@[a] == before[a0]);
                        assert(self.recs@[b] == before[b0]);
                    }
                }
                true
            }
        }
    }
}

} // verus!
