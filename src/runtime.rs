use vstd::prelude::*;
use crate::arena::Arena;
use crate::dispatch::{call_target, on_chain, resolve_call};
use crate::symbol::{lemma_chain_members, lemma_chain_prefix, SymbolTable};
use crate::SModelError;

verus! {

/// One layer of an instance: the values of the fields that `meaning`
/// declares, in declaration order.
pub struct Layer {
    pub meaning: usize,
    pub values: Vec<String>,
}

/// The record of an instance: its layers from the root meaning down to the
/// meaning it was constructed as. The meaning of each next layer is what the
/// discriminant of the layer before it names; the last one names none.
pub struct Record {
    pub layers: Vec<Layer>,
}

/// A handle on an instance, seen as meaning `view`. Two handles designate
/// the same instance exactly when their `handle`s are equal.
#[derive(Debug, Clone, Copy, PartialEq, Eq, Structural)]
pub struct Instance {
    pub handle: usize,
    pub view: usize,
}

/// The instances of a generated model, owned by one arena.
pub struct Runtime {
    pub arena: Arena<Record>,
}

impl Runtime {
    pub open spec fn layer_meanings(&self, h: usize) -> Seq<usize> {
        self.arena@[h as int].layers@.map_values(|l: Layer| l.meaning)
    }

    /// The meaning that the instance `h` was constructed as.
    pub open spec fn leaf(&self, h: usize) -> usize {
        self.layer_meanings(h).last()
    }

    /// Every record holds the layers of the ascending chain of its meaning.
    pub open spec fn wf(&self, t: &SymbolTable) -> bool {
        forall|h: usize| h < self.arena@.len() ==> {
            &&& #[trigger] self.arena@[h as int].layers@.len() > 0
            &&& t.is_meaning(self.leaf(h))
            &&& self.layer_meanings(h) == t.asc_chain(self.leaf(h))
            &&& forall|k: int| 0 <= k < self.arena@[h as int].layers@.len() ==> #[trigger] self.arena@[h as int].layers@[k].values@.len()
                == t.fields_of(self.arena@[h as int].layers@[k].meaning).len()
        }
    }

    /// The layer of instance `h` that holds the fields of `owner`, an
    /// ancestor of its meaning or that meaning itself: the one at the depth
    /// of `owner`.
    pub open spec fn layer_of(&self, t: &SymbolTable, h: usize, owner: usize) -> int {
        t.asc_chain(owner).len() - 1
    }

    /// `i` designates an instance of this arena, seen as one of its layers.
    pub open spec fn valid(&self, i: Instance) -> bool {
        &&& i.handle < self.arena@.len()
        &&& self.layer_meanings(i.handle).contains(i.view)
    }

    /// `i` converted to meaning `target`: it succeeds exactly when `target` is
    /// one of the instance's layers, and keeps the instance.
    pub open spec fn spec_to(&self, i: Instance, target: usize) -> Result<Instance, SModelError> {
        if self.layer_meanings(i.handle).contains(target) {
            Ok(Instance { handle: i.handle, view: target })
        } else {
            Err(SModelError::Contravariant)
        }
    }

    pub open spec fn spec_is(&self, i: Instance, target: usize) -> bool {
        self.spec_to(i, target) is Ok
    }

    pub fn new() -> (r: Self)
        ensures
            r.arena@.len() == 0,
    {
        Runtime { arena: Arena::new() }
    }

    /// The default values of the fields that meaning `m` declares.
    fn defaults(t: &SymbolTable, m: usize) -> (r: Vec<String>)
        requires
            t.wf(),
            t.is_meaning(m),
        ensures
            r@.len() == t.fields_of(m).len(),
            forall|j: int| 0 <= j < r@.len() ==> #[trigger] r@[j] == t.fields@[t.fields_of(m)[j] as int].field_init,
    {
        assert(t.wf_meaning(m));
        let fields = &t.meanings.get(m).fields;
        let mut r: Vec<String> = Vec::new();
        let n = fields.len();
        let mut j: usize = 0;
        while j < n
            invariant
                t.wf_meaning(m),
                *fields == t.meanings@[m as int].fields,
                n == fields@.len(),
                j <= n,
                r@.len() == j,
                forall|k: int| 0 <= k < j ==> #[trigger] r@[k] == t.fields@[t.fields_of(m)[k] as int].field_init,
            decreases n - j,
        {
            r.push(t.fields.get(fields[j]).field_init.clone());
            j = j + 1;
        }
        r
    }

    /// Constructs an instance of meaning `m`: exactly one allocation, of a
    /// record whose layers are the ascending chain of `m`, every field of
    /// every layer at its declared default. The result sees it as `m`.
    pub fn construct(&mut self, t: &SymbolTable, m: usize) -> (i: Instance)
        requires
            old(self).wf(t),
            t.wf(),
            t.is_meaning(m),
            old(self).arena@.len() < usize::MAX,
        ensures
            final(self).wf(t),
            final(self).arena@.len() == old(self).arena@.len() + 1,
            final(self).arena@.take(old(self).arena@.len() as int) == old(self).arena@,
            i == (Instance { handle: old(self).arena@.len() as usize, view: m }),
            final(self).valid(i),
            final(self).layer_meanings(i.handle) == t.asc_chain(m),
            forall|k: int, j: int| 0 <= k < t.asc_chain(m).len() && 0 <= j < t.fields_of(t.asc_chain(m)[k]).len()
                ==> #[trigger] final(self).arena@[i.handle as int].layers@[k].values@[j]
                    == t.fields@[t.fields_of(t.asc_chain(m)[k])[j] as int].field_init,
            forall|k: int| 0 <= k < t.asc_chain(m).len()
                ==> #[trigger] final(self).arena@[i.handle as int].layers@[k].values@.len() == t.fields_of(t.asc_chain(m)[k]).len(),
    {
        let chain = t.asc_meaning_list(m);
        proof { lemma_chain_members(t, m); }
        let mut layers: Vec<Layer> = Vec::new();
        let n = chain.len();
        let mut k: usize = 0;
        while k < n
            invariant
                t.wf(),
                t.is_meaning(m),
                chain@ == t.asc_chain(m),
                n == chain@.len(),
                k <= n,
                forall|q: int| 0 <= q < n ==> #[trigger] t.is_meaning(chain@[q]),
                layers@.len() == k,
                forall|q: int| 0 <= q < k ==> #[trigger] layers@[q].meaning == chain@[q],
                forall|q: int, j: int| 0 <= q < k && 0 <= j < t.fields_of(chain@[q]).len()
                    ==> #[trigger] layers@[q].values@[j] == t.fields@[t.fields_of(chain@[q])[j] as int].field_init,
                forall|q: int| 0 <= q < k ==> #[trigger] layers@[q].values@.len() == t.fields_of(chain@[q]).len(),
            decreases n - k,
        {
            let x = chain[k];
            let values = Self::defaults(t, x);
            layers.push(Layer { meaning: x, values });
            k = k + 1;
        }
        let ghost a0 = self.arena@;
        let h = self.arena.allocate(Record { layers });
        proof {
            assert(self.layer_meanings(h) =~= t.asc_chain(m));
            assert forall|g: usize| g < self.arena@.len() implies {
                &&& #[trigger] self.arena@[g as int].layers@.len() > 0
                &&& t.is_meaning(self.leaf(g))
                &&& self.layer_meanings(g) == t.asc_chain(self.leaf(g))
            } by {
                if g < a0.len() {
                    assert(self.arena@[g as int] == a0[g as int]);
                    assert(old(self).arena@[g as int].layers@.len() > 0);
                }
            }
            assert forall|g: usize, k: int| g < self.arena@.len() && 0 <= k < self.arena@[g as int].layers@.len()
                implies #[trigger] self.arena@[g as int].layers@[k].values@.len() == t.fields_of(self.arena@[g as int].layers@[k].meaning).len() by {
                if g < a0.len() {
                    assert(self.arena@[g as int] == a0[g as int]);
                    assert(old(self).arena@[g as int].layers@.len() > 0);
                }
            }
            assert(self.arena@.take(a0.len() as int) =~= a0);
            assert(t.asc_chain(m).last() == m);
        }
        Instance { handle: h, view: m }
    }

    /// The layers of instance `h`, root first.
    fn chain_of(&self, t: &SymbolTable, h: usize) -> (r: Vec<usize>)
        requires
            self.wf(t),
            t.wf(),
            h < self.arena@.len(),
        ensures
            r@ == self.layer_meanings(h),
            r@.len() > 0,
            t.is_meaning(r@.last()),
            r@ == t.asc_chain(r@.last()),
    {
        let rec = self.arena.get(h);
        let leaf = rec.layers[rec.layers.len() - 1].meaning;
        t.asc_meaning_list(leaf)
    }

    /// Converts `i` to meaning `target`. Towards an ancestor of the view this
    /// always succeeds; towards any other meaning it checks the layers of
    /// the instance, and fails where `target` is not among them.
    pub fn to(&self, t: &SymbolTable, i: Instance, target: usize) -> (r: Result<Instance, SModelError>)
        requires
            self.wf(t),
            t.wf(),
            self.valid(i),
            t.is_meaning(target),
        ensures
            r == self.spec_to(i, target),
    {
        let chain = self.chain_of(t, i.handle);
        proof {
            lemma_chain_members(t, chain@.last());
            let j = choose|j: int| 0 <= j < chain@.len() && chain@[j] == i.view;
            lemma_chain_prefix(t, chain@.last(), j);
            lemma_chain_members(t, i.view);
        }
        let view_chain = t.asc_meaning_list(i.view);
        if on_chain(t, &view_chain, target) {
            proof {
                let j = choose|j: int| 0 <= j < chain@.len() && chain@[j] == i.view;
                let q = choose|q: int| 0 <= q < view_chain@.len() && view_chain@[q] == target;
                assert(chain@[q] == target);
            }
            Ok(Instance { handle: i.handle, view: target })
        } else if on_chain(t, &chain, target) {
            Ok(Instance { handle: i.handle, view: target })
        } else {
            Err(SModelError::Contravariant)
        }
    }

    /// The current value of field number `k` of meaning `owner` in instance
    /// `i`, where `owner` is the view of `i` or one of its ancestors: the
    /// value in the layer at the depth of `owner`.
    pub fn get_field(&self, t: &SymbolTable, i: Instance, owner: usize, k: usize) -> (r: &String)
        requires
            self.wf(t),
            t.wf(),
            self.valid(i),
            t.is_ancestor_or_self(owner, i.view),
            k < t.fields_of(owner).len(),
        ensures
            self.arena@[i.handle as int].layers@[self.layer_of(t, i.handle, owner)].meaning == owner,
            *r == self.arena@[i.handle as int].layers@[self.layer_of(t, i.handle, owner)].values@[k as int],
    {
        proof { self.lemma_owner_layer(t, i, owner); }
        let rec = self.arena.get(i.handle);
        let d = t.asc_meaning_list(owner).len() - 1;
        &rec.layers[d].values[k]
    }

    /// Sets field number `k` of meaning `owner` in instance `i` to `value`,
    /// where `owner` is the view of `i` or one of its ancestors; nothing
    /// else changes.
    pub fn set_field(&mut self, t: &SymbolTable, i: Instance, owner: usize, k: usize, value: String)
        requires
            old(self).wf(t),
            t.wf(),
            old(self).valid(i),
            t.is_ancestor_or_self(owner, i.view),
            k < t.fields_of(owner).len(),
        ensures
            final(self).wf(t),
            final(self).arena@.len() == old(self).arena@.len(),
            forall|g: int| 0 <= g < old(self).arena@.len() && g != i.handle ==> #[trigger] final(self).arena@[g] == old(self).arena@[g],
            final(self).layer_meanings(i.handle) == old(self).layer_meanings(i.handle),
            ({
                let d = old(self).layer_of(t, i.handle, owner);
                &&& forall|q: int| 0 <= q < old(self).arena@[i.handle as int].layers@.len() && q != d
                    ==> #[trigger] final(self).arena@[i.handle as int].layers@[q] == old(self).arena@[i.handle as int].layers@[q]
                &&& final(self).arena@[i.handle as int].layers@[d].values@
                    == old(self).arena@[i.handle as int].layers@[d].values@.update(k as int, value)
            }),
    {
        proof { self.lemma_owner_layer(t, i, owner); }
        let d = t.asc_meaning_list(owner).len() - 1;
        let ghost a0 = self.arena@;
        let mut rec = self.arena.replace(i.handle, Record { layers: Vec::new() });
        let ghost l0 = rec.layers@;
        let mut layer = Layer { meaning: 0, values: Vec::new() };
        std::mem::swap(&mut layer, &mut rec.layers[d]);
        layer.values.set(k, value);
        std::mem::swap(&mut layer, &mut rec.layers[d]);
        let _ = self.arena.replace(i.handle, rec);
        proof {
            assert(self.layer_meanings(i.handle) =~= old(self).layer_meanings(i.handle));
            assert forall|g: usize| g < self.arena@.len() implies {
                &&& #[trigger] self.arena@[g as int].layers@.len() > 0
                &&& t.is_meaning(self.leaf(g))
                &&& self.layer_meanings(g) == t.asc_chain(self.leaf(g))
                &&& forall|q: int| 0 <= q < self.arena@[g as int].layers@.len() ==> #[trigger] self.arena@[g as int].layers@[q].values@.len()
                    == t.fields_of(self.arena@[g as int].layers@[q].meaning).len()
            } by {
                if g != i.handle {
                    assert(self.arena@[g as int] == a0[g as int]);
                } else {
                    assert(old(self).arena@[g as int].layers@.len() > 0);
                    assert forall|q: int| 0 <= q < self.arena@[g as int].layers@.len() implies #[trigger] self.arena@[g as int].layers@[q].values@.len()
                        == t.fields_of(self.arena@[g as int].layers@[q].meaning).len() by {
                        assert(self.arena@[g as int].layers@[q].meaning == l0[q].meaning);
                    }
                }
            }
        }
    }

    /// The layer at the depth of an ancestor of the view holds that ancestor.
    proof fn lemma_owner_layer(&self, t: &SymbolTable, i: Instance, owner: usize)
        requires
            self.wf(t),
            t.wf(),
            self.valid(i),
            t.is_ancestor_or_self(owner, i.view),
        ensures
            t.is_meaning(owner),
            0 <= self.layer_of(t, i.handle, owner) < self.arena@[i.handle as int].layers@.len(),
            self.arena@[i.handle as int].layers@[self.layer_of(t, i.handle, owner)].meaning == owner,
    {
        let leaf = self.leaf(i.handle);
        let c = t.asc_chain(leaf);
        lemma_chain_members(t, leaf);
        let j = choose|j: int| 0 <= j < c.len() && c[j] == i.view;
        lemma_chain_prefix(t, leaf, j);
        let q = choose|q: int| 0 <= q < t.asc_chain(i.view).len() && t.asc_chain(i.view)[q] == owner;
        assert(c[q] == owner);
        lemma_chain_prefix(t, leaf, q);
        assert(self.layer_meanings(i.handle)[q] == self.arena@[i.handle as int].layers@[q].meaning);
    }

    /// Whether `i` and `j` are the same instance: wrappers compare, and hash,
    /// by the allocation they reach, whatever their views and whatever the
    /// values of their fields.
    pub fn same_instance(&self, i: Instance, j: Instance) -> (r: bool)
        ensures
            r == (i.handle == j.handle),
    {
        i.handle == j.handle
    }

    /// Whether `i` converts to meaning `target`.
    pub fn is(&self, t: &SymbolTable, i: Instance, target: usize) -> (r: bool)
        requires
            self.wf(t),
            t.wf(),
            self.valid(i),
            t.is_meaning(target),
        ensures
            r == self.spec_is(i, target),
    {
        self.to(t, i, target).is_ok()
    }

    /// The method whose body runs when `name` is called on `i`; `None` where
    /// the view of `i` has no method of that name.
    pub fn invoke(&self, t: &SymbolTable, i: Instance, name: &String) -> (r: Option<usize>)
        requires
            self.wf(t),
            t.wf(),
            self.valid(i),
        ensures
            r == call_target(t, i.view, name@, self.layer_meanings(i.handle)),
    {
        let chain = self.chain_of(t, i.handle);
        proof { lemma_chain_members(t, chain@.last()); }
        resolve_call(t, i.view, name, &chain)
    }
}

/// Converting an instance to any ancestor of its view succeeds, keeps the
/// instance, and converting the result back to the view gives back the
/// same handle.
pub proof fn lemma_upcast_round_trip(rt: &Runtime, t: &SymbolTable, i: Instance, a: usize)
    requires
        t.wf(),
        rt.wf(t),
        rt.valid(i),
        t.is_ancestor_or_self(a, i.view),
    ensures
        rt.spec_to(i, a) == Ok::<Instance, SModelError>(Instance { handle: i.handle, view: a }),
        rt.spec_to(Instance { handle: i.handle, view: a }, i.view) == Ok::<Instance, SModelError>(i),
{
    let leaf = rt.leaf(i.handle);
    let c = t.asc_chain(leaf);
    lemma_chain_members(t, leaf);
    let j = choose|j: int| 0 <= j < c.len() && c[j] == i.view;
    lemma_chain_prefix(t, leaf, j);
    let q = choose|q: int| 0 <= q < t.asc_chain(i.view).len() && t.asc_chain(i.view)[q] == a;
    assert(c[q] == a);
}

/// Converting an instance keeps its identity: the result reaches the same
/// allocation.
pub proof fn lemma_identity_by_allocation(rt: &Runtime, i: Instance, target: usize)
    requires
        rt.valid(i),
    ensures
        rt.spec_to(i, target) matches Ok(j) ==> j.handle == i.handle,
{
}

/// An instance is no instance of a meaning outside the ascending chain of
/// the meaning it was constructed as.
pub proof fn lemma_is_false_off_chain(rt: &Runtime, t: &SymbolTable, i: Instance, x: usize)
    requires
        t.wf(),
        rt.wf(t),
        rt.valid(i),
        !t.is_ancestor_or_self(x, rt.leaf(i.handle)),
    ensures
        !rt.spec_is(i, x),
        rt.spec_to(i, x) == Err::<Instance, SModelError>(SModelError::Contravariant),
{
}

} // verus!
