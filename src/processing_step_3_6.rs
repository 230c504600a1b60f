use vstd::prelude::*;
use crate::host::{Fragment, SModelHost};
use crate::symbol::{lemma_chain_members, SymbolTable};

verus! {

/// The conversion pass: the wrapper type of a meaning, its conversions to
/// every ancestor and its checked conversions to every descendant.
pub struct ProcessingStep3_6();

/// `d` is a descendant of `m`, not `m` itself.
pub open spec fn is_strict_descendant(t: &SymbolTable, m: usize, d: usize) -> bool {
    d != m && t.is_ancestor_or_self(m, d)
}

/// The strict descendants of `m` among the meanings before `k`, in order.
pub open spec fn descendants_before(t: &SymbolTable, m: usize, k: nat) -> Seq<usize>
    decreases k,
{
    if k == 0 {
        Seq::empty()
    } else {
        let rest = descendants_before(t, m, (k - 1) as nat);
        if is_strict_descendant(t, m, (k - 1) as usize) {
            rest.push((k - 1) as usize)
        } else {
            rest
        }
    }
}

/// All strict descendants of `m`, in the order of the table.
pub open spec fn descendants(t: &SymbolTable, m: usize) -> Seq<usize> {
    descendants_before(t, m, t.meanings@.len())
}

pub open spec fn is_upcast(f: Fragment, from: usize, to: usize, layers: usize) -> bool {
    f matches Fragment::Upcast { from: a, to: b, layers: c } && a == from && b == to && c == layers
}

pub open spec fn is_downcast(f: Fragment, from: usize, to: usize, path: Seq<usize>) -> bool {
    f matches Fragment::Downcast { from: a, to: b, path: p } && a == from && b == to && p@ == path
}

/// `out` holds the conversions of meaning `m`: one to each strict ancestor,
/// parent first, each unwrapping as many layers as lie between; then one to
/// each strict descendant, whose path is the descendant's chain below `m`.
pub open spec fn conversions(t: &SymbolTable, m: usize, out: Seq<Fragment>) -> bool {
    let chain = t.asc_chain(m);
    let up = chain.len() - 1;
    let down = descendants(t, m);
    &&& out.len() == up + down.len()
    &&& forall|j: int| 0 <= j < up ==> is_upcast(#[trigger] out[j], m, chain[up - 1 - j], (j + 1) as usize)
    &&& forall|k: int| 0 <= k < down.len() ==> is_downcast(#[trigger] out[up + k], m, down[k], t.asc_chain(down[k]).skip(chain.len() as int))
}

impl ProcessingStep3_6 {
    /// Emits the wrapper of `meaning`, declared by `node`, then its
    /// conversions.
    pub fn exec(&self, host: &mut SModelHost, node: usize, meaning: usize)
        requires
            old(host).table.wf(),
            old(host).table.is_meaning(meaning),
        ensures
            final(host).table == old(host).table,
            final(host).semantics == old(host).semantics,
            final(host).diagnostics == old(host).diagnostics,
            ({
                let o = old(host).output@.len() as int;
                let out = final(host).output@;
                &&& out.len() > o
                &&& out.take(o) == old(host).output@
                &&& out[o] matches Fragment::Wrapper { meaning: wm, node: wn } && wm == meaning && wn == node
                &&& conversions(&old(host).table, meaning, out.skip(o + 1))
            }),
    {
        let t = &host.table;
        let mut out: Vec<Fragment> = Vec::new();
        let chain = t.asc_meaning_list(meaning);
        proof { lemma_chain_members(t, meaning); }
        let up = chain.len() - 1;
        let mut j: usize = 0;
        while j < up
            invariant
                t.wf(),
                chain@ == t.asc_chain(meaning),
                up == chain@.len() - 1,
                j <= up,
                out@.len() == j,
                forall|i: int| 0 <= i < j ==> is_upcast(#[trigger] out@[i], meaning, chain@[up - 1 - i], (i + 1) as usize),
            decreases up - j,
        {
            out.push(Fragment::Upcast { from: meaning, to: chain[up - 1 - j], layers: j + 1 });
            j = j + 1;
        }
        let n = t.meanings.len();
        let mut d: usize = 0;
        while d < n
            invariant
                t.wf(),
                t.is_meaning(meaning),
                n == t.meanings@.len(),
                d <= n,
                chain@ == t.asc_chain(meaning),
                up == chain@.len() - 1,
                out@.len() == up + descendants_before(t, meaning, d as nat).len(),
                forall|i: int| 0 <= i < up ==> is_upcast(#[trigger] out@[i], meaning, chain@[up - 1 - i], (i + 1) as usize),
                forall|k: int| 0 <= k < descendants_before(t, meaning, d as nat).len() ==> is_downcast(
                    #[trigger] out@[up + k], meaning, descendants_before(t, meaning, d as nat)[k],
                    t.asc_chain(descendants_before(t, meaning, d as nat)[k]).skip(chain@.len() as int)),
            decreases n - d,
        {
            let dchain = t.asc_meaning_list(d);
            proof { lemma_chain_members(t, d); }
            if d != meaning && chain.len() <= dchain.len() && dchain[chain.len() - 1] == meaning {
                proof { lemma_is_descendant(t, meaning, d); }
                let mut path: Vec<usize> = Vec::new();
                let mut k: usize = chain.len();
                while k < dchain.len()
                    invariant
                        chain@.len() <= k <= dchain@.len(),
                        path@ == dchain@.subrange(chain@.len() as int, k as int),
                    decreases dchain@.len() - k,
                {
                    path.push(dchain[k]);
                    k = k + 1;
                    assert(path@ =~= dchain@.subrange(chain@.len() as int, k as int));
                }
                assert(path@ =~= dchain@.skip(chain@.len() as int));
                out.push(Fragment::Downcast { from: meaning, to: d, path });
            } else {
                proof { lemma_is_descendant(t, meaning, d); }
            }
            d = d + 1;
        }
        host.output.push(Fragment::Wrapper { meaning, node });
        let ghost o = old(host).output@.len() as int;
        let ghost mid = host.output@;
        let ghost conv = out@;
        host.output.append(&mut out);
        proof {
            let all = host.output@;
            assert(all.take(o) =~= old(host).output@);
            assert(all.skip(o + 1) =~= conv);
            assert(all[o] == mid[o]);
        }
    }
}

/// A meaning is a strict descendant of `m` exactly when `m` stands in its
/// chain at the depth of `m`.
proof fn lemma_is_descendant(t: &SymbolTable, m: usize, d: usize)
    requires
        t.wf(),
        t.is_meaning(m),
        t.is_meaning(d),
    ensures
        is_strict_descendant(t, m, d) == (d != m && t.asc_chain(m).len() <= t.asc_chain(d).len()
            && t.asc_chain(d)[t.asc_chain(m).len() - 1] == m),
{
    lemma_chain_members(t, m);
    lemma_chain_members(t, d);
    if t.is_ancestor_or_self(m, d) {
        let j = choose|j: int| 0 <= j < t.asc_chain(d).len() && t.asc_chain(d)[j] == m;
        crate::symbol::lemma_chain_prefix(t, d, j);
        assert(t.asc_chain(m).len() == j + 1);
    }
}

} // verus!
