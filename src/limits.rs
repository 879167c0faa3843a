use vstd::prelude::*;

verus! {

/// Whether `key` names one of the entries of `s`.
pub open spec fn has_key<V>(s: Seq<(String, V)>, key: Seq<char>) -> bool {
    exists|i: int| 0 <= i < s.len() && (#[trigger] s[i]).0@ == key
}

/// Whether one of the first `upto` entries of `s` is named `key`.
pub fn contains_key<V>(s: &Vec<(String, V)>, upto: usize, key: &String) -> (r: bool)
    requires
        upto <= s@.len(),
    ensures
        r == has_key(s@.subrange(0, upto as int), key@),
{
    let mut i: usize = 0;
    while i < upto
        invariant
            upto <= s@.len(),
            i <= upto,
            forall|j: int| 0 <= j < i ==> (#[trigger] s@[j]).0@ != key@,
        decreases s@.len() - i,
    {
        if s[i].0 == *key {
            assert(s@.subrange(0, upto as int)[i as int] == s@[i as int]);
            return true;
        }
        i = i + 1;
    }
    proof {
        if has_key(s@.subrange(0, upto as int), key@) {
            let j = choose|j: int| 0 <= j < upto && (#[trigger] s@.subrange(0, upto as int)[j]).0@ == key@;
            assert(s@.subrange(0, upto as int)[j] == s@[j]);
        }
    }
    false
}

/// Merges caller-supplied parser limits onto the defaults: every override
/// stays, in its order, followed by each default whose name no override
/// uses, in the defaults' order.
pub fn merge_limits<V>(overrides: Vec<(String, V)>, defaults: Vec<(String, V)>) -> (r: Vec<(String, V)>)
    ensures
        r@.len() >= overrides@.len(),
        r@.subrange(0, overrides@.len() as int) == overrides@,
        forall|k: int| overrides@.len() <= k < r@.len() ==>
            defaults@.contains(#[trigger] r@[k]) && !has_key(overrides@, r@[k].0@),
        forall|j: int| 0 <= j < defaults@.len() && !has_key(overrides@, (#[trigger] defaults@[j]).0@) ==>
            r@.subrange(overrides@.len() as int, r@.len() as int).contains(defaults@[j]),
{
    let ghost ov = overrides@;
    let ghost dv = defaults@;
    let overrides_len = overrides.len();
    let n_defaults = defaults.len();
    let mut out = overrides;
    let mut defaults = defaults;
    let ghost n = ov.len() as int;
    let mut taken: usize = 0;
    proof {
        assert(out@.subrange(0, n) =~= ov);
        assert(defaults@ =~= dv.subrange(0, dv.len() as int));
    }
    while taken < n_defaults
        invariant
            n == ov.len(),
            overrides_len == n,
            n_defaults == dv.len(),
            out@.len() >= n,
            out@.subrange(0, n) == ov,
            taken + defaults@.len() == dv.len(),
            defaults@ == dv.subrange(taken as int, dv.len() as int),
            forall|k: int| n <= k < out@.len() ==> dv.contains(#[trigger] out@[k]) && !has_key(ov, out@[k].0@),
            forall|j: int| 0 <= j < taken && !has_key(ov, (#[trigger] dv[j]).0@) ==>
                out@.subrange(n, out@.len() as int).contains(dv[j]),
        decreases defaults@.len(),
    {
        let d = defaults.remove(0);
        let ghost t = taken as int;
        assert(d == dv[t]);
        let ghost before = out@;
        let present = contains_key(&out, overrides_len, &d.0);
        if !present {
            out.push(d);
        }
        taken = taken + 1;
        proof {
            assert(defaults@ =~= dv.subrange(taken as int, dv.len() as int));
            assert(out@.subrange(0, n) =~= before.subrange(0, n));
            assert forall|k: int| n <= k < out@.len() implies dv.contains(#[trigger] out@[k]) && !has_key(ov, out@[k].0@) by {
                if k == before.len() {
                    assert(out@[k] == dv[t]);
                } else {
                    assert(out@[k] == before[k]);
                }
            }
            assert forall|j: int| 0 <= j < taken && !has_key(ov, (#[trigger] dv[j]).0@) implies
                out@.subrange(n, out@.len() as int).contains(dv[j]) by {
                if j == t {
                    assert(out@.subrange(n, out@.len() as int)[before.len() - n] == dv[j]);
                } else {
                    let s0 = before.subrange(n, before.len() as int);
                    assert(s0.contains(dv[j]));
                    let w = choose|w: int| 0 <= w < s0.len() && s0[w] == dv[j];
                    assert(before.len() <= out@.len());
                    assert(s0[w] == before[n + w]);
                    assert(out@[n + w] == before[n + w]);
                    assert(out@.subrange(n, out@.len() as int)[w] == dv[j]);
                }
            }
        }
    }
    out
}

/// The level of the logs that go to stderr: the configured one, else 1.
pub fn stderr_log_level(configured: Option<u32>) -> (r: u32)
    ensures
        r == (match configured { Some(l) => l, None => 1u32 }),
{
    match configured {
        Some(l) => l,
        None => 1,
    }
}

} // verus!
