use vstd::prelude::*;
use crate::symbol::{
    lemma_chain_members, lemma_chain_ordered, lemma_chain_prefix, lemma_lookup_found, lemma_lookup_nearest,
    OverrideEntry, SymbolTable,
};

verus! {

/// The first entry, from position `k` on, of the override table of `s` whose
/// meaning stands in `chain`.
pub open spec fn first_override_from(t: &SymbolTable, s: usize, chain: Seq<usize>, k: int) -> Option<OverrideEntry>
    decreases t.overrides_of(s).len() - k,
{
    if k < 0 || k >= t.overrides_of(s).len() {
        None
    } else if chain.contains(t.overrides_of(s)[k].meaning) {
        Some(t.overrides_of(s)[k])
    } else {
        first_override_from(t, s, chain, k + 1)
    }
}

/// The method that a call of `s` runs on an instance whose layers are
/// `chain`: `s` itself, unless an override of it is declared in one of those
/// layers, in which case the call goes on to that override. `fuel` bounds
/// the number of steps; each step goes one layer deeper at least.
pub open spec fn dispatch(t: &SymbolTable, s: usize, chain: Seq<usize>, fuel: nat) -> usize
    decreases fuel,
{
    if fuel == 0 {
        s
    } else {
        match first_override_from(t, s, chain, 0) {
            Some(e) => dispatch(t, e.method, chain, (fuel - 1) as nat),
            None => s,
        }
    }
}

/// The method whose body runs when `name` is called through a view of
/// meaning `view` on an instance whose layers are `chain`; `None` where
/// `view` sees no method of that name.
pub open spec fn call_target(t: &SymbolTable, view: usize, name: Seq<char>, chain: Seq<usize>) -> Option<usize> {
    match t.lookup_from(view, name) {
        Some(s) => Some(dispatch(t, s, chain, chain.len())),
        None => None,
    }
}

/// Whether meaning `x` is one of the layers `chain`, the ascending chain of
/// an instance's meaning: that is, whether the layer at the depth of `x` is
/// `x`.
pub fn on_chain(t: &SymbolTable, chain: &Vec<usize>, x: usize) -> (r: bool)
    requires
        t.wf(),
        t.is_meaning(x),
        chain@.len() > 0,
        t.is_meaning(chain@.last()),
        chain@ == t.asc_chain(chain@.last()),
    ensures
        r == chain@.contains(x),
{
    let cx = t.asc_meaning_list(x);
    proof {
        lemma_chain_members(t, x);
        lemma_on_chain(t, chain@.last(), x);
    }
    cx.len() <= chain.len() && chain[cx.len() - 1] == x
}

/// `x` is an ancestor of `leaf`, or `leaf` itself, exactly when the layer at
/// the depth of `x` in the chain of `leaf` is `x`.
pub proof fn lemma_on_chain(t: &SymbolTable, leaf: usize, x: usize)
    requires
        t.wf(),
        t.is_meaning(leaf),
        t.is_meaning(x),
    ensures
        t.asc_chain(leaf).contains(x) == (t.asc_chain(x).len() <= t.asc_chain(leaf).len()
            && t.asc_chain(leaf)[t.asc_chain(x).len() - 1] == x),
{
    lemma_chain_members(t, leaf);
    lemma_chain_members(t, x);
    if t.asc_chain(leaf).contains(x) {
        let j = choose|j: int| 0 <= j < t.asc_chain(leaf).len() && t.asc_chain(leaf)[j] == x;
        lemma_chain_prefix(t, leaf, j);
        assert(t.asc_chain(x).len() == j + 1);
    }
    if t.asc_chain(x).len() <= t.asc_chain(leaf).len() && t.asc_chain(leaf)[t.asc_chain(x).len() - 1] == x {
        assert(t.asc_chain(leaf).contains(x));
    }
}

/// What `first_override_from` finds is an entry of the table whose meaning
/// is in the chain, and so a well-formed override.
pub proof fn lemma_first_override_is_entry(t: &SymbolTable, s: usize, chain: Seq<usize>, k: int)
    requires
        t.wf(),
        s < t.methods@.len(),
        0 <= k,
    ensures
        first_override_from(t, s, chain, k) matches Some(e) ==> {
            &&& t.overrides_of(s).contains(e)
            &&& chain.contains(e.meaning)
            &&& t.wf_override(s, e)
        },
    decreases t.overrides_of(s).len() - k,
{
    assert(t.wf_method(s));
    if k < t.overrides_of(s).len() {
        if chain.contains(t.overrides_of(s)[k].meaning) {
            assert(t.wf_override(s, t.overrides_of(s)[k]));
        } else {
            lemma_first_override_is_entry(t, s, chain, k + 1);
        }
    }
}

/// The first override of `s` whose meaning is a layer of `chain`.
pub fn first_override(t: &SymbolTable, s: usize, chain: &Vec<usize>) -> (r: Option<OverrideEntry>)
    requires
        t.wf(),
        s < t.methods@.len(),
        chain@.len() > 0,
        t.is_meaning(chain@.last()),
        chain@ == t.asc_chain(chain@.last()),
    ensures
        r == first_override_from(t, s, chain@, 0),
{
    let table = &t.methods.get(s).override_logic_mapping;
    let n = table.len();
    let mut k: usize = 0;
    while k < n
        invariant
            t.wf(),
            s < t.methods@.len(),
            chain@.len() > 0,
            t.is_meaning(chain@.last()),
            chain@ == t.asc_chain(chain@.last()),
            table@ == t.overrides_of(s),
            n == table@.len(),
            k <= n,
            first_override_from(t, s, chain@, 0) == first_override_from(t, s, chain@, k as int),
        decreases n - k,
    {
        let e = table[k];
        proof {
            assert(t.wf_method(s));
            assert(t.wf_override(s, t.overrides_of(s)[k as int]));
        }
        if on_chain(t, chain, e.meaning) {
            return Some(e);
        }
        k = k + 1;
    }
    None
}

/// The method that runs for a call of `s` on an instance whose layers are `chain`.
pub fn resolve_dispatch(t: &SymbolTable, s: usize, chain: &Vec<usize>) -> (r: usize)
    requires
        t.wf(),
        s < t.methods@.len(),
        chain@.len() > 0,
        t.is_meaning(chain@.last()),
        chain@ == t.asc_chain(chain@.last()),
    ensures
        r == dispatch(t, s, chain@, chain@.len()),
{
    let mut cur = s;
    let mut fuel: usize = chain.len();
    while fuel > 0
        invariant
            t.wf(),
            cur < t.methods@.len(),
            chain@.len() > 0,
            t.is_meaning(chain@.last()),
            chain@ == t.asc_chain(chain@.last()),
            fuel <= chain@.len(),
            dispatch(t, s, chain@, chain@.len()) == dispatch(t, cur, chain@, fuel as nat),
        decreases fuel,
    {
        match first_override(t, cur, chain) {
            Some(e) => {
                proof {
                    lemma_first_override_is_entry(t, cur, chain@, 0);
                }
                cur = e.method;
                fuel = fuel - 1;
            },
            None => {
                return cur;
            },
        }
    }
    cur
}

/// The method called `name` that meaning `m` sees.
pub fn lookup_visible(t: &SymbolTable, m: usize, name: &String) -> (r: Option<usize>)
    requires
        t.wf(),
        t.is_meaning(m),
    ensures
        r == t.lookup_from(m, name@),
{
    assert(t.wf_meaning(m));
    match t.lookup_method(m, name) {
        Some(s) => Some(s),
        None => t.lookup_method_in_base_meaning(m, name),
    }
}

/// The method whose body runs when `name` is called through a view of
/// meaning `view` on an instance whose layers are `chain`.
pub fn resolve_call(t: &SymbolTable, view: usize, name: &String, chain: &Vec<usize>) -> (r: Option<usize>)
    requires
        t.wf(),
        t.is_meaning(view),
        chain@.len() > 0,
        t.is_meaning(chain@.last()),
        chain@ == t.asc_chain(chain@.last()),
    ensures
        r == call_target(t, view, name@, chain@),
{
    match lookup_visible(t, view, name) {
        Some(s) => {
            proof { lemma_lookup_found(t, view, name@); }
            Some(resolve_dispatch(t, s, chain))
        },
        None => None,
    }
}

/// A method `s` of meaning `m` is the one that `m` declares under its name.
proof fn lemma_own_method(t: &SymbolTable, s: usize)
    requires
        t.wf(),
        s < t.methods@.len(),
    ensures
        t.declares(t.defined_in(s), t.method_name(s)),
        t.own_method(t.defined_in(s), t.method_name(s)) == s,
        t.lookup_from(t.defined_in(s), t.method_name(s)) == Some(s),
{
    assert(t.wf_method(s));
    let m = t.defined_in(s);
    assert(t.wf_meaning(m));
    let j = choose|j: int| 0 <= j < t.methods_of(m).len() && t.methods_of(m)[j] == s;
    assert(t.method_name(t.methods_of(m)[j]) == t.method_name(s));
    let k = choose|k: int| 0 <= k < t.methods_of(m).len() && t.method_name(#[trigger] t.methods_of(m)[k]) == t.method_name(s);
    assert(k == j);
}

/// What an override entry says of where its base and its meaning stand: the
/// base's meaning is a strict ancestor of the entry's meaning.
proof fn lemma_override_below(t: &SymbolTable, s: usize, e: OverrideEntry)
    requires
        t.wf(),
        s < t.methods@.len(),
        t.wf_override(s, e),
    ensures
        t.parent(e.meaning) is Some,
        t.is_ancestor_or_self(t.defined_in(s), t.parent(e.meaning).unwrap()),
        t.defined_in(s) < e.meaning,
        t.is_ancestor_or_self(t.defined_in(s), e.meaning),
{
    assert(t.wf_meaning(e.meaning));
    let p = t.parent(e.meaning).unwrap();
    lemma_lookup_found(t, p, t.method_name(s));
    lemma_chain_members(t, p);
    lemma_chain_members(t, e.meaning);
    let j = choose|j: int| 0 <= j < t.asc_chain(p).len() && t.asc_chain(p)[j] == t.defined_in(s);
    assert(t.asc_chain(e.meaning)[j] == t.defined_in(s));
}

/// Two entries of one override table whose meanings both lie on one chain
/// are the same override.
pub proof fn lemma_unique_override_on_chain(t: &SymbolTable, s: usize, leaf: usize, e1: OverrideEntry, e2: OverrideEntry)
    requires
        t.wf(),
        s < t.methods@.len(),
        t.is_meaning(leaf),
        t.wf_override(s, e1),
        t.wf_override(s, e2),
        t.asc_chain(leaf).contains(e1.meaning),
        t.asc_chain(leaf).contains(e2.meaning),
    ensures
        e1.meaning == e2.meaning,
        e1.method == e2.method,
{
    let c = t.asc_chain(leaf);
    let i1 = choose|i: int| 0 <= i < c.len() && c[i] == e1.meaning;
    let i2 = choose|i: int| 0 <= i < c.len() && c[i] == e2.meaning;
    if i1 != i2 {
        let (lo, hi, ilo, ihi) = if i1 < i2 { (e1, e2, i1, i2) } else { (e2, e1, i2, i1) };
        lemma_chain_ordered(t, leaf, ilo, ihi);
        lemma_override_below(t, s, lo);
        lemma_override_below(t, s, hi);
        let p = t.parent(hi.meaning).unwrap();
        lemma_chain_members(t, hi.meaning);
        assert(t.is_ancestor_or_self(lo.meaning, p)) by {
            let j = choose|j: int| 0 <= j < t.asc_chain(hi.meaning).len() && t.asc_chain(hi.meaning)[j] == lo.meaning;
            assert(j < t.asc_chain(hi.meaning).len() - 1);
            assert(t.asc_chain(p)[j] == lo.meaning);
        }
        lemma_own_method(t, lo.method);
        assert(t.wf_meaning(hi.meaning));
        lemma_lookup_nearest(t, p, t.method_name(s), lo.meaning);
    }
    lemma_own_method(t, e1.method);
    lemma_own_method(t, e2.method);
}

/// Where `lookup_from(p)` finds `s` and `v` lies between the meaning of `s`
/// and `p`, `lookup_from(v)` finds `s` too.
proof fn lemma_lookup_descend(t: &SymbolTable, p: usize, v: usize, name: Seq<char>)
    requires
        t.wf(),
        t.is_meaning(p),
        t.is_ancestor_or_self(v, p),
        t.lookup_from(p, name) is Some,
        t.is_ancestor_or_self(t.defined_in(t.lookup_from(p, name).unwrap()), v),
    ensures
        t.lookup_from(v, name) == t.lookup_from(p, name),
    decreases p,
{
    assert(t.wf_meaning(p));
    lemma_chain_members(t, p);
    if v != p {
        let s = t.lookup_from(p, name).unwrap();
        let j = choose|j: int| 0 <= j < t.asc_chain(p).len() && t.asc_chain(p)[j] == v;
        assert(v < p);
        lemma_lookup_found(t, p, name);
        lemma_chain_members(t, v);
        let i = choose|i: int| 0 <= i < t.asc_chain(v).len() && t.asc_chain(v)[i] == t.defined_in(s);
        if t.declares(p, name) {
            lemma_own_method(t, s);
            assert(t.defined_in(s) <= v);
            assert(false);
        }
        let q = t.parent(p).unwrap();
        assert(j < t.asc_chain(p).len() - 1);
        assert(t.asc_chain(q)[j] == v);
        lemma_lookup_descend(t, q, v, name);
    }
}

/// A method that has no override in a chain runs itself.
proof fn lemma_dispatch_stays(t: &SymbolTable, s: usize, chain: Seq<usize>, fuel: nat)
    requires
        first_override_from(t, s, chain, 0) is None,
    ensures
        dispatch(t, s, chain, fuel) == s,
{
}

/// An entry on the chain makes the first override found on it the entry's
/// method.
proof fn lemma_dispatch_steps(t: &SymbolTable, s: usize, leaf: usize, e: OverrideEntry, fuel: nat)
    requires
        t.wf(),
        s < t.methods@.len(),
        t.is_meaning(leaf),
        t.overrides_of(s).contains(e),
        t.asc_chain(leaf).contains(e.meaning),
        fuel > 0,
    ensures
        dispatch(t, s, t.asc_chain(leaf), fuel) == dispatch(t, e.method, t.asc_chain(leaf), (fuel - 1) as nat),
{
    let c = t.asc_chain(leaf);
    assert(t.wf_method(s));
    let k = choose|k: int| 0 <= k < t.overrides_of(s).len() && t.overrides_of(s)[k] == e;
    assert(t.wf_override(s, e));
    lemma_first_some(t, s, c, 0, k);
    lemma_first_override_is_entry(t, s, c, 0);
    let f = first_override_from(t, s, c, 0).unwrap();
    lemma_unique_override_on_chain(t, s, leaf, e, f);
}

proof fn lemma_first_some(t: &SymbolTable, s: usize, chain: Seq<usize>, k: int, j: int)
    requires
        0 <= k <= j < t.overrides_of(s).len(),
        chain.contains(t.overrides_of(s)[j].meaning),
    ensures
        first_override_from(t, s, chain, k) is Some,
    decreases j - k,
{
    if k < j && !chain.contains(t.overrides_of(s)[k].meaning) {
        lemma_first_some(t, s, chain, k + 1, j);
    }
}

/// A method has no override among the layers of an instance of its own meaning.
proof fn lemma_no_override_at_home(t: &SymbolTable, s: usize, chain_leaf: usize)
    requires
        t.wf(),
        s < t.methods@.len(),
        chain_leaf == t.defined_in(s),
    ensures
        first_override_from(t, s, t.asc_chain(chain_leaf), 0) is None,
{
    lemma_first_override_is_entry(t, s, t.asc_chain(chain_leaf), 0);
    if let Some(e) = first_override_from(t, s, t.asc_chain(chain_leaf), 0) {
        lemma_override_below(t, s, e);
        assert(t.wf_method(s));
        lemma_chain_members(t, chain_leaf);
        let j = choose|j: int| 0 <= j < t.asc_chain(chain_leaf).len() && t.asc_chain(chain_leaf)[j] == e.meaning;
        assert(false);
    }
}

/// Overriding is transitive and the most derived override wins. Say `d`
/// overrides `a` and `e` overrides `d`. On an instance of the meaning of
/// `e`, a call of that name through any view from the meaning of `a` down
/// runs `e`; the `super` call of `e` reaches `d`, and that of `d` reaches `a`.
pub proof fn lemma_override_most_derived(t: &SymbolTable, a: usize, d: usize, e: usize, view: usize)
    requires
        t.wf(),
        a < t.methods@.len(),
        t.overrides_of(a).contains(OverrideEntry { meaning: t.defined_in(d), method: d }),
        t.overrides_of(d).contains(OverrideEntry { meaning: t.defined_in(e), method: e }),
        t.is_ancestor_or_self(t.defined_in(a), view),
        t.is_ancestor_or_self(view, t.defined_in(e)),
    ensures
        call_target(t, view, t.method_name(a), t.asc_chain(t.defined_in(e))) == Some(e),
        t.lookup_in_base(t.defined_in(e), t.method_name(a)) == Some(d),
        t.lookup_in_base(t.defined_in(d), t.method_name(a)) == Some(a),
{
    let ea = OverrideEntry { meaning: t.defined_in(d), method: d };
    let ed = OverrideEntry { meaning: t.defined_in(e), method: e };
    assert(t.wf_method(a));
    let ka = choose|k: int| 0 <= k < t.overrides_of(a).len() && t.overrides_of(a)[k] == ea;
    assert(t.wf_override(a, ea));
    assert(d < t.methods@.len());
    assert(t.wf_method(d));
    let kd = choose|k: int| 0 <= k < t.overrides_of(d).len() && t.overrides_of(d)[k] == ed;
    assert(t.wf_override(d, ed));
    let name = t.method_name(a);
    let ma = t.defined_in(a);
    let md = t.defined_in(d);
    let me = t.defined_in(e);
    let c = t.asc_chain(me);
    lemma_override_below(t, a, ea);
    lemma_override_below(t, d, ed);
    lemma_chain_members(t, me);
    lemma_chain_members(t, md);
    let pe = t.parent(me).unwrap();
    let pd = t.parent(md).unwrap();
    // The three meanings lie on the chain of `me`, in this order.
    let jd = choose|j: int| 0 <= j < c.len() && c[j] == md;
    lemma_chain_prefix(t, me, jd);
    assert(t.asc_chain(md) == c.take(jd + 1));
    let ja = choose|j: int| 0 <= j < t.asc_chain(md).len() && t.asc_chain(md)[j] == ma;
    assert(c[ja] == ma);
    assert(c.contains(ma));
    assert(jd < c.len() - 1);
    assert(ja < jd);
    // Dispatch from each of the three methods ends at `e`.
    lemma_no_override_at_home(t, e, me);
    lemma_dispatch_stays(t, e, c, (c.len() - 2) as nat);
    lemma_dispatch_steps(t, d, me, ed, (c.len() - 1) as nat);
    lemma_dispatch_stays(t, e, c, (c.len() - 1) as nat);
    lemma_dispatch_steps(t, d, me, ed, c.len());
    lemma_dispatch_steps(t, a, me, ea, c.len());
    assert(dispatch(t, a, c, c.len()) == e);
    assert(dispatch(t, d, c, c.len()) == e);
    assert(dispatch(t, e, c, c.len()) == e);
    // What the view sees is one of the three.
    let jv = choose|j: int| 0 <= j < c.len() && c[j] == view;
    lemma_chain_prefix(t, me, jv);
    if view == me {
        lemma_own_method(t, e);
    } else if jd <= jv {
        lemma_chain_ordered(t, me, jd, jv);
        assert(t.asc_chain(pe) == c.take(c.len() - 1)) by {
            lemma_chain_prefix(t, me, c.len() - 2);
        }
        assert(t.asc_chain(pe)[jv] == view);
        lemma_lookup_descend(t, pe, view, name);
    } else {
        assert(t.asc_chain(pd) == c.take(jd)) by {
            lemma_chain_prefix(t, md, jd - 1);
            lemma_chain_members(t, md);
        }
        assert(t.asc_chain(pd)[jv] == view);
        lemma_lookup_descend(t, pd, view, name);
    }
}

} // verus!
