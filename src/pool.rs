use vstd::prelude::*;

verus! {

/// The words of a mask that permits exactly one token: bit `tok % 32` of
/// word `tok / 32`, every other bit clear.
pub open spec fn singleton_word(tok: u32, i: int) -> u32 {
    if i == (tok / 32) as int {
        1u32 << ((tok % 32) as u32)
    } else {
        0u32
    }
}

/// Builds the mask of `n_words` words in which only `tok` is allowed.
pub fn singleton_mask(n_words: usize, tok: u32) -> (r: Vec<u32>)
    requires
        (tok / 32) < n_words,
    ensures
        r@.len() == n_words,
        forall|i: int| 0 <= i < n_words ==> r@[i] == singleton_word(tok, i),
{
    let mut r: Vec<u32> = Vec::new();
    let hi: usize = (tok / 32) as usize;
    let mut i: usize = 0;
    while i < n_words
        invariant
            i <= n_words,
            hi == (tok / 32) as int,
            r@.len() == i,
            forall|j: int| 0 <= j < i ==> r@[j] == singleton_word(tok, j),
        decreases n_words - i,
    {
        if i == hi {
            r.push(1u32 << (tok % 32));
        } else {
            r.push(0u32);
        }
        i = i + 1;
    }
    r
}

/// A per-step arena of token masks: `capacity` buffers of `n_words` words,
/// handed out one after another and reset before each batch step.
pub struct MaskPool {
    pub bufs: Vec<Vec<u32>>,
    pub n_words: usize,
    pub next: usize,
}

/// `b` is `a` after handing out buffer `r` filled with the first words of `src`.
pub open spec fn allocated(a: MaskPool, b: MaskPool, src: Seq<u32>, r: int) -> bool {
    &&& b.wf()
    &&& r == a.next
    &&& b.next == a.next + 1
    &&& b.n_words == a.n_words
    &&& b.bufs@.len() == a.bufs@.len()
    &&& b.bufs@[r]@ == src.subrange(0, a.n_words as int)
    &&& forall|i: int| 0 <= i < a.bufs@.len() && i != r ==> b.bufs@[i] == a.bufs@[i]
}

/// `b` is `a` at the start of a new step.
pub open spec fn was_reset(a: MaskPool, b: MaskPool) -> bool {
    &&& b.wf()
    &&& b.next == 0
    &&& b.bufs@ == a.bufs@
    &&& b.n_words == a.n_words
}

impl MaskPool {
    pub open spec fn wf(&self) -> bool {
        &&& self.next <= self.bufs@.len() <= usize::MAX
        &&& forall|i: int| 0 <= i < self.bufs@.len() ==> (#[trigger] self.bufs@[i])@.len() == self.n_words
    }

    /// Number of buffers that can still be handed out in this step.
    pub open spec fn free(&self) -> nat {
        (self.bufs@.len() - self.next) as nat
    }

    pub fn new(n_words: usize, capacity: usize) -> (r: MaskPool)
        ensures
            r.wf(),
            r.n_words == n_words,
            r.bufs@.len() == capacity,
            r.next == 0,
            forall|i: int, j: int| 0 <= i < capacity && 0 <= j < n_words ==> r.bufs@[i]@[j] == 0u32,
    {
        let mut bufs: Vec<Vec<u32>> = Vec::new();
        let mut i: usize = 0;
        while i < capacity
            invariant
                i <= capacity,
                bufs@.len() == i,
                forall|k: int| 0 <= k < i ==> (#[trigger] bufs@[k])@.len() == n_words,
                forall|k: int, j: int| 0 <= k < i && 0 <= j < n_words ==> bufs@[k]@[j] == 0u32,
            decreases capacity - i,
        {
            let mut b: Vec<u32> = Vec::new();
            let mut j: usize = 0;
            while j < n_words
                invariant
                    j <= n_words,
                    b@.len() == j,
                    forall|k: int| 0 <= k < j ==> b@[k] == 0u32,
                decreases n_words - j,
            {
                b.push(0u32);
                j = j + 1;
            }
            bufs.push(b);
            i = i + 1;
        }
        MaskPool { bufs, n_words, next: 0 }
    }

    /// Starts a new step: every buffer becomes free again. The words already
    /// written stay as they are.
    pub fn reset(&mut self)
        requires
            old(self).wf(),
        ensures
            was_reset(*old(self), *final(self)),
    {
        self.next = 0;
    }

    /// Takes the next free buffer and copies the first `n_words` words of `src`
    /// into it; returns the buffer's index.
    pub fn allocate_copy(&mut self, src: &Vec<u32>) -> (r: usize)
        requires
            old(self).wf(),
            old(self).free() > 0,
            src@.len() >= old(self).n_words,
        ensures
            allocated(*old(self), *final(self), src@, r as int),
    {
        let n = self.n_words;
        let mut b: Vec<u32> = Vec::new();
        let mut j: usize = 0;
        while j < n
            invariant
                j <= n,
                n <= src@.len(),
                b@ == src@.subrange(0, j as int),
            decreases n - j,
        {
            b.push(src[j]);
            proof {
                assert(b@ =~= src@.subrange(0, j + 1));
            }
            j = j + 1;
        }
        let r = self.next;
        self.bufs.set(r, b);
        self.next = r + 1;
        r
    }

    /// The words of buffer `idx`.
    pub fn mask(&self, idx: usize) -> (r: &Vec<u32>)
        requires
            idx < self.bufs@.len(),
        ensures
            r == self.bufs@[idx as int],
    {
        &self.bufs[idx]
    }
}

} // verus!
