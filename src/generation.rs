use vstd::prelude::*;
use crate::host::{Diagnostic, Fragment, SModelHost};
use crate::pipeline::{define_data, resolved_upto};
use crate::processing_step_3_6::{conversions, descendants, is_downcast, is_upcast, ProcessingStep3_6};
use crate::processing_step_3_7::{constructor_inputs, constructor_super_arguments, ProcessingStep3_7};
use crate::processing_step_3_9::ProcessingStep3_9;
use crate::arguments::argument_names;
use crate::processing_step_3_2::{has_field_named, ProcessingStep3_2};
use crate::processing_step_3_8::{
    method_added, overrides_upto, rewrite_super, spec_begins_with_instance_receiver, spec_begins_with_no_receiver,
    ProcessingStep3_8,
};
use crate::symbol::{lemma_lookup_found, lemma_lookup_frame, OverrideEntry, SymbolTable};
use crate::tree::{Meaning, MeaningField, MeaningMethod, Token};

verus! {

/// Number of field declarations (or, with `methods`, of method
/// declarations) in the first `a` declarations.
pub open spec fn count_total(nodes: Seq<Meaning>, a: int, methods: bool) -> int
    decreases a,
{
    if a <= 0 || a > nodes.len() {
        0
    } else {
        count_total(nodes, a - 1, methods) + if methods {
            nodes[a - 1].methods@.len() as int
        } else {
            nodes[a - 1].fields@.len() as int
        }
    }
}

pub proof fn lemma_count_total_mono(nodes: Seq<Meaning>, a: int, b: int, methods: bool)
    requires
        0 <= a <= b <= nodes.len(),
    ensures
        count_total(nodes, a, methods) <= count_total(nodes, b, methods),
    decreases b - a,
{
    if a < b {
        lemma_count_total_mono(nodes, a, b - 1, methods);
    }
}

/// Two tables with the same parents have the same chains.
pub proof fn lemma_chain_frame(t0: &SymbolTable, t1: &SymbolTable, x: usize)
    requires
        forall|y: usize| y <= x ==> #[trigger] t1.parent(y) == t0.parent(y),
    ensures
        t1.asc_chain(x) == t0.asc_chain(x),
    decreases x,
{
    if let Some(p) = t0.parent(x) {
        if p < x {
            lemma_chain_frame(t0, t1, p);
        }
    }
}

/// `f` is a fragment of the meaning bound to declaration `node`, or of a
/// meaning of a table of `n` meanings, as the kind of `f` says.
pub open spec fn frag_bound(f: Fragment, sem: Seq<Option<usize>>, n: int) -> bool {
    match f {
        Fragment::ArenaType { root } => root < n,
        Fragment::DataRecord { meaning, .. } => meaning < n,
        Fragment::FieldAccessors { meaning, .. } => meaning < n,
        Fragment::Wrapper { meaning, node } => node < sem.len() && sem[node as int] == Some(meaning),
        Fragment::Upcast { from, .. } => from < n,
        Fragment::Downcast { from, .. } => from < n,
        Fragment::Constructor { meaning, node, .. } => node < sem.len() && sem[node as int] == Some(meaning),
        Fragment::StaticMethod { meaning, node, .. } => node < sem.len() && sem[node as int] == Some(meaning),
        Fragment::CoreMethod { meaning, node, .. } => node < sem.len() && sem[node as int] == Some(meaning),
        Fragment::DispatchEntry { meaning, node, .. } => node < sem.len() && sem[node as int] == Some(meaning),
        Fragment::Helpers { meaning } => meaning < n,
    }
}

pub open spec fn all_bound(out: Seq<Fragment>, sem: Seq<Option<usize>>, n: int) -> bool {
    forall|k: int| 0 <= k < out.len() ==> frag_bound(#[trigger] out[k], sem, n)
}

/// `h1` keeps what `h0` had: the meanings with their names, parents and
/// submeanings, the bindings of the declarations, and the diagnostics and
/// fragments so far, which it may only extend.
pub open spec fn kept(h0: &SModelHost, h1: &SModelHost) -> bool {
    &&& h1.table.meanings@.len() == h0.table.meanings@.len()
    &&& forall|k: int| 0 <= k < h0.table.meanings@.len() ==> {
        &&& #[trigger] h1.table.meanings@[k].name == h0.table.meanings@[k].name
        &&& h1.table.meanings@[k].inherits == h0.table.meanings@[k].inherits
        &&& h1.table.meanings@[k].submeanings == h0.table.meanings@[k].submeanings
    }
    &&& h1.semantics.meanings@ == h0.semantics.meanings@
    &&& h1.diagnostics@.len() >= h0.diagnostics@.len()
    &&& h1.diagnostics@.take(h0.diagnostics@.len() as int) == h0.diagnostics@
    &&& h1.output@.len() >= h0.output@.len()
    &&& h1.output@.take(h0.output@.len() as int) == h0.output@
}

pub proof fn lemma_kept_trans(h0: &SModelHost, h1: &SModelHost, h2: &SModelHost)
    requires
        kept(h0, h1),
        kept(h1, h2),
    ensures
        kept(h0, h2),
{
    assert(h2.diagnostics@.take(h0.diagnostics@.len() as int) =~= h1.diagnostics@.take(h0.diagnostics@.len() as int));
    assert(h2.output@.take(h0.output@.len() as int) =~= h1.output@.take(h0.output@.len() as int));
    assert forall|k: int| 0 <= k < h0.table.meanings@.len() implies {
        &&& #[trigger] h2.table.meanings@[k].name == h0.table.meanings@[k].name
        &&& h2.table.meanings@[k].inherits == h0.table.meanings@[k].inherits
        &&& h2.table.meanings@[k].submeanings == h0.table.meanings@[k].submeanings
    } by {
        assert(h1.table.meanings@[k].name == h0.table.meanings@[k].name);
        assert(h1.table.meanings@[k].inherits == h0.table.meanings@[k].inherits);
        assert(h1.table.meanings@[k].submeanings == h0.table.meanings@[k].submeanings);
        assert(h2.table.meanings@[k].name == h1.table.meanings@[k].name);
    }
    assert(h2.diagnostics@.take(h0.diagnostics@.len() as int) == h0.diagnostics@);
    assert(h2.output@.take(h0.output@.len() as int) == h0.output@);
    assert(h2.table.meanings@.len() == h0.table.meanings@.len());
    assert(h2.semantics.meanings@ == h0.semantics.meanings@);
    assert(h2.diagnostics@.len() >= h0.diagnostics@.len());
    assert(h2.output@.len() >= h0.output@.len());
}

/// Kept hosts have the same chains.
pub proof fn lemma_kept_chains(h0: &SModelHost, h1: &SModelHost)
    requires
        kept(h0, h1),
    ensures
        forall|x: usize| x < h0.table.meanings@.len() ==> #[trigger] h1.table.asc_chain(x) == h0.table.asc_chain(x),
{
    assert forall|x: usize| x < h0.table.meanings@.len() implies #[trigger] h1.table.asc_chain(x) == h0.table.asc_chain(x) by {
        assert forall|y: usize| y <= x implies #[trigger] h1.table.parent(y) == h0.table.parent(y) by {
            assert(h1.table.meanings@[y as int].name == h0.table.meanings@[y as int].name);
        }
        lemma_chain_frame(&h0.table, &h1.table, x);
    }
}

/// What remains in the output of `out[..]` when more is appended.
pub proof fn lemma_prefix_index<T>(a: Seq<T>, b: Seq<T>, k: int)
    requires
        b.len() >= a.len(),
        b.take(a.len() as int) == a,
        0 <= k < a.len(),
    ensures
        b[k] == a[k],
{
    assert(b.take(a.len() as int)[k] == b[k]);
}

pub proof fn lemma_prefix_contains<T>(a: Seq<T>, b: Seq<T>, x: T)
    requires
        b.len() >= a.len(),
        b.take(a.len() as int) == a,
        a.contains(x),
    ensures
        b.contains(x),
{
    let k = choose|k: int| 0 <= k < a.len() && a[k] == x;
    lemma_prefix_index(a, b, k);
}

/// The accessors of field declaration `fd` of meaning `m`: the field is one
/// of `m`'s, copies the declaration, and is reached through the chain of `m`.
pub open spec fn is_accessors_for(t: &SymbolTable, f: Fragment, m: usize, fd: MeaningField) -> bool {
    match f {
        Fragment::FieldAccessors { meaning, field, path } => {
            &&& meaning == m
            &&& path@ == t.asc_chain(m)
            &&& t.fields_of(m).contains(field)
            &&& field < t.fields@.len()
            &&& t.fields@[field as int].name@ == fd.name@
            &&& t.fields@[field as int].is_ref == fd.is_ref
            &&& t.fields@[field as int].field_type@ == fd.type_annotation@
            &&& t.fields@[field as int].field_init@ == fd.default_value@
        },
        _ => false,
    }
}

/// An earlier field of `node` has the name of field `f`.
pub open spec fn earlier_field_named(node: Meaning, f: int) -> bool {
    exists|g: int| 0 <= g < f && #[trigger] node.fields@[g].name@ == node.fields@[f].name@
}

/// Field `f` of declaration `a`, bound to meaning `m`, was reported as a
/// redefinition where an earlier field has its name, else it became a field
/// of `m` with accessors.
pub open spec fn field_outcome(t: &SymbolTable, out: Seq<Fragment>, diags: Seq<Diagnostic>, node: Meaning, a: usize, f: int, m: usize) -> bool {
    if earlier_field_named(node, f) {
        diags.contains(Diagnostic::FieldRedefinition { node: a, field: f as usize })
    } else {
        exists|k: int| 0 <= k < out.len() && is_accessors_for(t, #[trigger] out[k], m, node.fields@[f])
    }
}

/// A field outcome stays true while the table keeps its fields and chains
/// and the output and diagnostics only grow.
pub proof fn lemma_field_outcome_kept(h0: &SModelHost, h1: &SModelHost, node: Meaning, a: usize, f: int, m: usize)
    requires
        field_outcome(&h0.table, h0.output@, h0.diagnostics@, node, a, f, m),
        kept(h0, h1),
        m < h0.table.meanings@.len(),
        h1.table.fields@.len() >= h0.table.fields@.len(),
        h1.table.fields@.take(h0.table.fields@.len() as int) == h0.table.fields@,
        forall|mm: usize, id: usize| mm < h0.table.meanings@.len() && h0.table.fields_of(mm).contains(id) ==> #[trigger] h1.table.fields_of(mm).contains(id),
    ensures
        field_outcome(&h1.table, h1.output@, h1.diagnostics@, node, a, f, m),
{
    if earlier_field_named(node, f) {
        lemma_prefix_contains(h0.diagnostics@, h1.diagnostics@, Diagnostic::FieldRedefinition { node: a, field: f as usize });
    } else {
        let k = choose|k: int| 0 <= k < h0.output@.len() && is_accessors_for(&h0.table, #[trigger] h0.output@[k], m, node.fields@[f]);
        lemma_prefix_index(h0.output@, h1.output@, k);
        lemma_kept_chains(h0, h1);
        if let Fragment::FieldAccessors { field, .. } = h0.output@[k] {
            lemma_prefix_index(h0.table.fields@, h1.table.fields@, field as int);
        }
        assert(is_accessors_for(&h1.table, h1.output@[k], m, node.fields@[f]));
    }
}

/// Every declared field of every registered meaning has its outcome.
pub open spec fn fields_done(h: &SModelHost, nodes: Seq<Meaning>, upto: int) -> bool {
    let sem = h.semantics.meanings@;
    forall|a: int, f: int| #![trigger nodes[a].fields@[f]] 0 <= a < upto && sem[a] is Some && 0 <= f < nodes[a].fields@.len()
        ==> field_outcome(&h.table, h.output@, h.diagnostics@, nodes[a], a as usize, f, sem[a].unwrap())
}

/// Declarations bound in order bind distinct meanings.
pub open spec fn bound_in_order(sem: Seq<Option<usize>>) -> bool {
    forall|a: int, b: int| 0 <= a < b < sem.len() && #[trigger] sem[a] is Some && #[trigger] sem[b] is Some
        ==> sem[a].unwrap() < sem[b].unwrap()
}

/// After a field pass on meaning `m`: the names of the fields of `m` are
/// those before, and the new one where it was added.
proof fn lemma_field_names(t0: &SymbolTable, t1: &SymbolTable, m: usize, name: Seq<char>, nm: Seq<char>)
    requires
        t0.wf(),
        t0.is_meaning(m),
        t0.fields@.len() < usize::MAX,
        crate::processing_step_3_2::field_added(t0, t1, m),
        t1.fields@[t0.fields@.len() as int].name@ == name,
    ensures
        has_field_named(t1, m, nm) == (has_field_named(t0, m, nm) || nm == name),
{
    let f0 = t0.fields@.len();
    assert(t0.wf_meaning(m));
    if has_field_named(t0, m, nm) {
        let k = choose|k: int| 0 <= k < t0.fields_of(m).len() && t0.fields@[#[trigger] t0.fields_of(m)[k] as int].name@ == nm;
        assert(t1.fields_of(m)[k] == t0.fields_of(m)[k]);
        lemma_prefix_index(t0.fields@, t1.fields@, t0.fields_of(m)[k] as int);
    }
    if nm == name {
        assert(t1.fields_of(m)[t0.fields_of(m).len() as int] == f0 as usize);
    }
    if has_field_named(t1, m, nm) {
        let k = choose|k: int| 0 <= k < t1.fields_of(m).len() && t1.fields@[#[trigger] t1.fields_of(m)[k] as int].name@ == nm;
        if k < t0.fields_of(m).len() {
            assert(t1.fields_of(m)[k] == t0.fields_of(m)[k]);
            lemma_prefix_index(t0.fields@, t1.fields@, t0.fields_of(m)[k] as int);
        } else {
            assert(t1.fields_of(m)[k] == f0 as usize);
        }
    }
}

/// The field pass over every registered meaning: each field declaration is
/// reported as a redefinition where an earlier field of its meaning has its
/// name, and otherwise becomes a field of the meaning with accessors.
pub fn run_fields(host: &mut SModelHost, nodes: &Vec<Meaning>)
    requires
        resolved_upto(old(host), nodes@, nodes@.len() as int),
        count_total(nodes@, nodes@.len() as int, false) < usize::MAX,
    ensures
        final(host).table.wf(),
        kept(old(host), final(host)),
        final(host).semantics == old(host).semantics,
        final(host).table.methods@ == old(host).table.methods@,
        forall|m: usize| m < final(host).table.meanings@.len() ==> #[trigger] final(host).table.methods_of(m) == old(host).table.methods_of(m),
        fields_done(final(host), nodes@, nodes@.len() as int),
        all_bound(final(host).output@, final(host).semantics.meanings@, final(host).table.meanings@.len() as int),
{
    let ghost h0 = *host;
    let ghost sem = host.semantics.meanings@;
    let ghost nm = host.table.meanings@.len() as int;
    let n = nodes.len();
    let mut a: usize = 0;
    proof {
        assert(host.diagnostics@.take(host.diagnostics@.len() as int) =~= host.diagnostics@);
        assert(host.output@.take(host.output@.len() as int) =~= host.output@);
        assert forall|x: int| 0 <= x < nodes@.len() && #[trigger] sem[x] is Some implies h0.table.is_meaning(sem[x].unwrap()) by {
            assert(crate::pipeline::stands_for(&h0.table, sem[x].unwrap(), nodes@[x]));
        }
    }
    while a < n
        invariant
            n == nodes@.len(),
            a <= n,
            sem == h0.semantics.meanings@,
            sem.len() == n,
            nm == h0.table.meanings@.len(),
            bound_in_order(sem),
            forall|x: int| 0 <= x < nodes@.len() && #[trigger] sem[x] is Some ==> h0.table.is_meaning(sem[x].unwrap()),
            host.table.wf(),
            kept(&h0, host),
            host.semantics == h0.semantics,
            host.table.methods@ == h0.table.methods@,
            forall|m: usize| m < host.table.meanings@.len() ==> #[trigger] host.table.methods_of(m) == h0.table.methods_of(m),
            forall|x: int| a <= x < n && #[trigger] sem[x] is Some ==> host.table.fields_of(sem[x].unwrap()).len() == 0,
            fields_done(host, nodes@, a as int),
            host.table.fields@.len() <= count_total(nodes@, a as int, false),
            count_total(nodes@, n as int, false) < usize::MAX,
            all_bound(host.output@, sem, nm),
        decreases n - a,
    {
        proof { lemma_count_total_mono(nodes@, a as int + 1, n as int, false); }
        match host.semantics.meanings[a] {
            Some(m) => {
                let nf = nodes[a].fields.len();
                let mut f: usize = 0;
                proof {
                    assert(sem[a as int] is Some);
                    assert forall|x: Seq<char>| #[trigger] has_field_named(&host.table, m, x)
                        == (exists|g: int| 0 <= g < 0 && nodes@[a as int].fields@[g].name@ == x) by {}
                }
                while f < nf
                    invariant
                        n == nodes@.len(),
                        a < n,
                        nf == nodes@[a as int].fields@.len(),
                        f <= nf,
                        sem == h0.semantics.meanings@,
                        sem.len() == n,
                        sem[a as int] == Some(m),
                        nm == h0.table.meanings@.len(),
                        m < nm,
                        bound_in_order(sem),
                        forall|x: int| 0 <= x < nodes@.len() && #[trigger] sem[x] is Some ==> h0.table.is_meaning(sem[x].unwrap()),
                        host.table.wf(),
                        kept(&h0, host),
                        host.semantics == h0.semantics,
                        host.table.methods@ == h0.table.methods@,
                        forall|mm: usize| mm < host.table.meanings@.len() ==> #[trigger] host.table.methods_of(mm) == h0.table.methods_of(mm),
                        forall|x: int| a < x < n && #[trigger] sem[x] is Some ==> host.table.fields_of(sem[x].unwrap()).len() == 0,
                        fields_done(host, nodes@, a as int),
                        forall|g: int| 0 <= g < f ==> field_outcome(&host.table, host.output@, host.diagnostics@,
                            nodes@[a as int], a, g, m),
                        forall|x: Seq<char>| #[trigger] has_field_named(&host.table, m, x)
                            == (exists|g: int| 0 <= g < f && nodes@[a as int].fields@[g].name@ == x),
                        host.table.fields@.len() <= count_total(nodes@, a as int, false) + f,
                        count_total(nodes@, a as int + 1, false) < usize::MAX,
                        all_bound(host.output@, sem, nm),
                    decreases nf - f,
                {
                    let ghost h1 = *host;
                    let ghost fd = nodes@[a as int].fields@[f as int];
                    ProcessingStep3_2().exec(host, nodes, a, f, m);
                    proof {
                        let t0 = h1.table;
                        let t1 = host.table;
                        let dup = has_field_named(&t0, m, fd.name@);
                        if !dup {
                            assert forall|k: int| 0 <= k < t0.meanings@.len() implies {
                                &&& #[trigger] t1.meanings@[k].name == t0.meanings@[k].name
                                &&& t1.meanings@[k].inherits == t0.meanings@[k].inherits
                                &&& t1.meanings@[k].submeanings == t0.meanings@[k].submeanings
                            } by {
                                if k != m {
                                    assert(t1.meanings@[k] == t0.meanings@[k]);
                                }
                            }
                            assert forall|mm: usize| mm < t1.meanings@.len() implies #[trigger] t1.methods_of(mm) == h0.table.methods_of(mm) by {
                                if mm != m {
                                    assert(t1.meanings@[mm as int] == t0.meanings@[mm as int]);
                                }
                                assert(t0.methods_of(mm) == h0.table.methods_of(mm));
                            }
                            assert forall|mm: usize, id: usize| mm < t0.meanings@.len() && t0.fields_of(mm).contains(id) implies #[trigger] t1.fields_of(mm).contains(id) by {
                                if mm != m {
                                    assert(t1.meanings@[mm as int] == t0.meanings@[mm as int]);
                                } else if mm == m {
                                    let k = choose|k: int| 0 <= k < t0.fields_of(mm).len() && t0.fields_of(mm)[k] == id;
                                    assert(t1.fields_of(mm)[k] == id);
                                }
                            }
                            assert forall|x: int| a < x < n && #[trigger] sem[x] is Some implies t1.fields_of(sem[x].unwrap()).len() == 0 by {
                                assert(sem[a as int] is Some);
                                assert(sem[x].unwrap() > m);
                                assert(t1.meanings@[sem[x].unwrap() as int] == t0.meanings@[sem[x].unwrap() as int]);
                            }
                            assert forall|x: Seq<char>| #[trigger] has_field_named(&t1, m, x)
                                == (exists|g: int| 0 <= g < f + 1 && nodes@[a as int].fields@[g].name@ == x) by {
                                lemma_field_names(&t0, &t1, m, fd.name@, x);
                                if x == fd.name@ {
                                    assert(nodes@[a as int].fields@[f as int].name@ == x);
                                }
                                if exists|g: int| 0 <= g < f + 1 && nodes@[a as int].fields@[g].name@ == x {
                                    let g = choose|g: int| 0 <= g < f + 1 && nodes@[a as int].fields@[g].name@ == x;
                                    if g < f {
                                        assert(exists|g: int| 0 <= g < f && nodes@[a as int].fields@[g].name@ == x);
                                    }
                                }
                            }
                        } else {
                            assert forall|x: Seq<char>| #[trigger] has_field_named(&t1, m, x)
                                == (exists|g: int| 0 <= g < f + 1 && nodes@[a as int].fields@[g].name@ == x) by {
                                if exists|g: int| 0 <= g < f + 1 && nodes@[a as int].fields@[g].name@ == x {
                                    let g = choose|g: int| 0 <= g < f + 1 && nodes@[a as int].fields@[g].name@ == x;
                                    if g < f {
                                        assert(exists|g: int| 0 <= g < f && nodes@[a as int].fields@[g].name@ == x);
                                    } else {
                                        assert(has_field_named(&t0, m, x));
                                    }
                                }
                            }
                            assert(host.output@.take(h1.output@.len() as int) =~= h1.output@);
                            assert forall|mm: usize, id: usize| mm < t0.meanings@.len() && t0.fields_of(mm).contains(id) implies #[trigger] t1.fields_of(mm).contains(id) by {}
                        }
                        assert(host.diagnostics@.take(h1.diagnostics@.len() as int) =~= h1.diagnostics@);
                        assert(t1.fields@.take(t0.fields@.len() as int) =~= t0.fields@);
                        assert(kept(&h1, host));
                        lemma_kept_trans(&h0, &h1, host);
                        assert(dup == earlier_field_named(nodes@[a as int], f as int));
                        assert forall|x: int, g: int| #![trigger nodes@[x].fields@[g]] 0 <= x < a && sem[x] is Some && 0 <= g < nodes@[x].fields@.len()
                            implies field_outcome(&host.table, host.output@, host.diagnostics@, nodes@[x], x as usize, g, sem[x].unwrap()) by {
                            lemma_field_outcome_kept(&h1, host, nodes@[x], x as usize, g, sem[x].unwrap());
                        }
                        assert forall|g: int| 0 <= g < f + 1 implies field_outcome(&host.table, host.output@, host.diagnostics@,
                            nodes@[a as int], a, g, m) by {
                            if g < f {
                                lemma_field_outcome_kept(&h1, host, nodes@[a as int], a, g, m);
                            } else if dup {
                                assert(host.diagnostics@.last() == Diagnostic::FieldRedefinition { node: a, field: f });
                                assert(host.diagnostics@.contains(Diagnostic::FieldRedefinition { node: a, field: f }));
                            } else {
                                lemma_kept_chains(&h1, host);
                                let k = host.output@.len() - 1;
                                assert(t1.fields_of(m).last() == t0.fields@.len());
                                assert(t1.fields_of(m).contains(t0.fields@.len() as usize));
                                assert(is_accessors_for(&t1, host.output@[k], m, fd));
                            }
                        }
                        assert forall|k: int| 0 <= k < host.output@.len() implies frag_bound(#[trigger] host.output@[k], sem, nm) by {
                            if k < h1.output@.len() {
                                lemma_prefix_index(h1.output@, host.output@, k);
                            }
                        }
                    }
                    f = f + 1;
                }
                proof {
                    assert forall|x: int, g: int| #![trigger nodes@[x].fields@[g]] 0 <= x < a + 1 && sem[x] is Some && 0 <= g < nodes@[x].fields@.len()
                        implies field_outcome(&host.table, host.output@, host.diagnostics@, nodes@[x], x as usize, g, sem[x].unwrap()) by {
                        if x == a {
                            assert(field_outcome(&host.table, host.output@, host.diagnostics@, nodes@[a as int], a, g, m));
                        }
                    }
                }
            },
            None => {},
        }
        a = a + 1;
    }
}

/// Adding a method to meaning `m` changes no lookup at or above `m`, and no chain.
pub proof fn lemma_added_lookups(t0: &SymbolTable, t1: &SymbolTable, m: usize, name: Seq<char>, doc: Option<String>, base: Option<usize>)
    requires
        t0.wf(),
        t0.is_meaning(m),
        method_added(t0, t1, m, name, doc, base),
    ensures
        forall|x: usize, nm: Seq<char>| #![trigger t1.lookup_in_base(x, nm)] x <= m ==> t1.lookup_in_base(x, nm) == t0.lookup_in_base(x, nm),
        forall|x: usize| x < t0.meanings@.len() ==> #[trigger] t1.asc_chain(x) == t0.asc_chain(x),
        forall|s: usize| s < t0.methods@.len() ==> #[trigger] t1.defined_in(s) == t0.defined_in(s) && t1.method_name(s) == t0.method_name(s),
{
    let ns = t0.methods@.len();
    assert forall|s: usize| s < ns implies #[trigger] t1.defined_in(s) == t0.defined_in(s) && t1.method_name(s) == t0.method_name(s) by {
        if base != Some(s) {
            assert(t1.methods@[s as int] == t0.methods@[s as int]);
        }
    }
    assert forall|y: usize| y < t0.meanings@.len() implies #[trigger] t1.parent(y) == t0.parent(y) by {
        if y != m {
            assert(t1.meanings@[y as int] == t0.meanings@[y as int]);
        }
    }
    assert forall|y: usize| y < m implies #[trigger] t1.methods_of(y) == t0.methods_of(y) by {
        assert(t1.meanings@[y as int] == t0.meanings@[y as int]);
    }
    assert forall|x: usize, nm: Seq<char>| #![trigger t1.lookup_in_base(x, nm)] x <= m implies t1.lookup_in_base(x, nm) == t0.lookup_in_base(x, nm) by {
        assert(t0.wf_meaning(x));
        if let Some(p) = t0.parent(x) {
            assert forall|y: usize| y <= p implies #[trigger] t1.parent(y) == t0.parent(y) && t1.methods_of(y) == t0.methods_of(y) by {}
            lemma_lookup_frame(t0, t1, p, nm);
        }
    }
    assert forall|x: usize| x < t0.meanings@.len() implies #[trigger] t1.asc_chain(x) == t0.asc_chain(x) by {
        assert forall|y: usize| y <= x implies #[trigger] t1.parent(y) == t0.parent(y) by {}
        lemma_chain_frame(t0, t1, x);
    }
}

/// The `super` rewrite of a body of `m` reads only the lookups above `m`,
/// the methods found there and the chains.
pub proof fn lemma_rewrite_frame(t0: &SymbolTable, t1: &SymbolTable, m: usize, toks: Seq<Token>, i: int)
    requires
        t0.wf(),
        t0.is_meaning(m),
        forall|nm: Seq<char>| #[trigger] t1.lookup_in_base(m, nm) == t0.lookup_in_base(m, nm),
        forall|x: usize| x < t0.meanings@.len() ==> #[trigger] t1.asc_chain(x) == t0.asc_chain(x),
        forall|s: usize| s < t0.methods@.len() ==> #[trigger] t1.defined_in(s) == t0.defined_in(s) && t1.method_name(s) == t0.method_name(s),
    ensures
        rewrite_super(t1, m, toks, i) == rewrite_super(t0, m, toks, i),
    decreases toks.len() - i,
{
    if 0 <= i < toks.len() {
        match crate::processing_step_3_8::super_call_name(toks, i) {
            Some(n) => {
                match t0.lookup_in_base(m, n) {
                    Some(b) => {
                        assert(t0.wf_meaning(m));
                        let p = t0.parent(m).unwrap();
                        lemma_lookup_found(t0, p, n);
                        assert(t1.defined_in(b) == t0.defined_in(b));
                        assert(t0.wf_method(b));
                        assert(t1.asc_chain(t0.defined_in(b)) == t0.asc_chain(t0.defined_in(b)));
                        assert(t1.asc_chain(m) == t0.asc_chain(m));
                        lemma_rewrite_frame(t0, t1, m, toks, i + 4);
                    },
                    None => {
                        lemma_rewrite_frame(t0, t1, m, toks, i + 1);
                    },
                }
            },
            None => {
                lemma_rewrite_frame(t0, t1, m, toks, i + 1);
            },
        }
    }
}

/// The core emitted for method `j` of declaration `a`, bound to symbol `s`
/// of meaning `m`.
pub open spec fn is_core_for(t: &SymbolTable, f: Fragment, m: usize, a: usize, j: usize, s: usize, mn: MeaningMethod) -> bool {
    match f {
        Fragment::CoreMethod { meaning, node, method, symbol, arguments, body } => {
            let names = argument_names(mn.inputs@.skip(1));
            &&& meaning == m
            &&& node == a
            &&& method == j
            &&& symbol == s
            &&& arguments@.len() == names.len()
            &&& forall|k: int| 0 <= k < names.len() ==> #[trigger] arguments@[k]@ == names[k]
            &&& body@ == rewrite_super(t, m, mn.statements@, 0)
        },
        _ => false,
    }
}

/// An earlier method of `node` with the name of method `j` was registered.
pub open spec fn earlier_method_named(slots: Seq<Option<usize>>, node: Meaning, j: int) -> bool {
    exists|g: int| 0 <= g < j && #[trigger] slots[g] is Some && node.methods@[g].name@ == node.methods@[j].name@
}

/// What became of method `j` of declaration `a`, bound to meaning `m`:
/// without receiver it is emitted as it stands; a receiver other than
/// `&self`, a name already registered for `m`, or an `override` or
/// `inheritdoc` with nothing to refer to is reported; otherwise it is bound
/// to a new method symbol of `m`, its core is emitted with its `super` calls
/// rewritten, and as an override it stands in its base's override table.
pub open spec fn method_outcome(t: &SymbolTable, out: Seq<Fragment>, diags: Seq<Diagnostic>, slots: Seq<Option<usize>>,
    node: Meaning, a: usize, j: int, m: usize) -> bool {
    let mn = node.methods@[j];
    if spec_begins_with_no_receiver(mn.inputs@) {
        slots[j] is None && out.contains(Fragment::StaticMethod { meaning: m, node: a, method: j as usize })
    } else if !spec_begins_with_instance_receiver(mn.inputs@) {
        slots[j] is None && diags.contains(Diagnostic::ReceiverShape { node: a, method: j as usize })
    } else if earlier_method_named(slots, node, j) {
        slots[j] is None && diags.contains(Diagnostic::MethodRedefinition { node: a, method: j as usize })
    } else if (mn.is_override || mn.inherit_doc) && t.lookup_in_base(m, mn.name@) is None {
        slots[j] is None && diags.contains(Diagnostic::NoMethodInBase { node: a, method: j as usize })
    } else {
        &&& slots[j] is Some
        &&& slots[j].unwrap() < t.methods@.len()
        &&& t.defined_in(slots[j].unwrap()) == m
        &&& t.method_name(slots[j].unwrap()) == mn.name@
        &&& exists|k: int| 0 <= k < out.len() && is_core_for(t, #[trigger] out[k], m, a, j as usize, slots[j].unwrap(), mn)
        &&& mn.is_override ==> t.overrides_of(t.lookup_in_base(m, mn.name@).unwrap()).contains(
            OverrideEntry { meaning: m, method: slots[j].unwrap() })
    }
}

/// Every method declaration of every registered meaning has its outcome.
pub open spec fn methods_done(h: &SModelHost, nodes: Seq<Meaning>, upto: int) -> bool {
    let sem = h.semantics.meanings@;
    forall|a: int, j: int| #![trigger nodes[a].methods@[j]] 0 <= a < upto && sem[a] is Some && 0 <= j < nodes[a].methods@.len()
        ==> method_outcome(&h.table, h.output@, h.diagnostics@, h.semantics.methods@[a]@, nodes[a], a as usize, j, sem[a].unwrap())
}

/// A method outcome of meaning `m` stays true when a method is added to a
/// meaning no earlier than `m`, or the table stays, and the output and
/// diagnostics only grow.
pub proof fn lemma_method_outcome_kept(h0: &SModelHost, h1: &SModelHost, node: Meaning, a: usize, j: int, m: usize,
    slots0: Seq<Option<usize>>, slots1: Seq<Option<usize>>)
    requires
        h0.table.wf(),
        h0.table.is_meaning(m),
        method_outcome(&h0.table, h0.output@, h0.diagnostics@, slots0, node, a, j, m),
        0 <= j < slots0.len(),
        slots1.len() == slots0.len(),
        forall|g: int| 0 <= g <= j ==> #[trigger] slots1[g] == slots0[g],
        kept(h0, h1),
        h1.table == h0.table || exists|m2: usize, name: Seq<char>, doc: Option<String>, base: Option<usize>|
            m <= m2 && h0.table.is_meaning(m2) && #[trigger] method_added(&h0.table, &h1.table, m2, name, doc, base),
    ensures
        method_outcome(&h1.table, h1.output@, h1.diagnostics@, slots1, node, a, j, m),
{
    let t0 = h0.table;
    let t1 = h1.table;
    let mn = node.methods@[j];
    if t1 != t0 {
        let (m2, name, doc, base) = choose|m2: usize, name: Seq<char>, doc: Option<String>, base: Option<usize>|
            m <= m2 && h0.table.is_meaning(m2) && #[trigger] method_added(&h0.table, &h1.table, m2, name, doc, base);
        lemma_added_lookups(&t0, &t1, m2, name, doc, base);
        assert forall|nm: Seq<char>| #[trigger] t1.lookup_in_base(m, nm) == t0.lookup_in_base(m, nm) by {}
        lemma_rewrite_frame(&t0, &t1, m, mn.statements@, 0);
        assert forall|b: usize, e: OverrideEntry| b < t0.methods@.len() && t0.overrides_of(b).contains(e)
            implies #[trigger] t1.overrides_of(b).contains(e) by {
            let k = choose|k: int| 0 <= k < t0.overrides_of(b).len() && t0.overrides_of(b)[k] == e;
            if base == Some(b) {
                assert(t1.overrides_of(b)[k] == e);
            } else {
                assert(t1.methods@[b as int] == t0.methods@[b as int]);
            }
        }
    }
    assert(earlier_method_named(slots1, node, j) == earlier_method_named(slots0, node, j)) by {
        if earlier_method_named(slots0, node, j) {
            let g = choose|g: int| 0 <= g < j && #[trigger] slots0[g] is Some && node.methods@[g].name@ == node.methods@[j].name@;
            assert(slots1[g] == slots0[g]);
        }
        if earlier_method_named(slots1, node, j) {
            let g = choose|g: int| 0 <= g < j && #[trigger] slots1[g] is Some && node.methods@[g].name@ == node.methods@[j].name@;
            assert(slots1[g] == slots0[g]);
        }
    }
    assert(slots1[j] == slots0[j]);
    if spec_begins_with_no_receiver(mn.inputs@) {
        lemma_prefix_contains(h0.output@, h1.output@, Fragment::StaticMethod { meaning: m, node: a, method: j as usize });
    } else if !spec_begins_with_instance_receiver(mn.inputs@) {
        lemma_prefix_contains(h0.diagnostics@, h1.diagnostics@, Diagnostic::ReceiverShape { node: a, method: j as usize });
    } else if earlier_method_named(slots0, node, j) {
        lemma_prefix_contains(h0.diagnostics@, h1.diagnostics@, Diagnostic::MethodRedefinition { node: a, method: j as usize });
    } else if (mn.is_override || mn.inherit_doc) && t0.lookup_in_base(m, mn.name@) is None {
        lemma_prefix_contains(h0.diagnostics@, h1.diagnostics@, Diagnostic::NoMethodInBase { node: a, method: j as usize });
    } else {
        let s = slots0[j].unwrap();
        let k = choose|k: int| 0 <= k < h0.output@.len() && is_core_for(&t0, #[trigger] h0.output@[k], m, a, j as usize, s, mn);
        lemma_prefix_index(h0.output@, h1.output@, k);
        assert(is_core_for(&t1, h1.output@[k], m, a, j as usize, s, mn));
        if mn.is_override {
            let b = t0.lookup_in_base(m, mn.name@).unwrap();
            assert(t0.wf_meaning(m));
            lemma_lookup_found(&t0, t0.parent(m).unwrap(), mn.name@);
            assert(t1.overrides_of(b).contains(OverrideEntry { meaning: m, method: s }));
        }
    }
}

/// After a method called `name` is added to `m`, `m` declares exactly the
/// names it declared before and `name`.
proof fn lemma_declares_after(t0: &SymbolTable, t1: &SymbolTable, m: usize, name: Seq<char>, doc: Option<String>, base: Option<usize>, x: Seq<char>)
    requires
        t0.wf(),
        t0.is_meaning(m),
        t0.methods@.len() < usize::MAX,
        method_added(t0, t1, m, name, doc, base),
    ensures
        t1.declares(m, x) == (t0.declares(m, x) || x == name),
{
    lemma_added_lookups(t0, t1, m, name, doc, base);
    assert(t0.wf_meaning(m));
    let n0 = t0.methods_of(m).len();
    if t0.declares(m, x) {
        let k = choose|k: int| 0 <= k < t0.methods_of(m).len() && t0.method_name(#[trigger] t0.methods_of(m)[k]) == x;
        assert(t1.methods_of(m)[k] == t0.methods_of(m)[k]);
        assert(t1.method_name(t1.methods_of(m)[k]) == x);
    }
    if x == name {
        assert(t1.methods_of(m)[n0 as int] == t0.methods@.len() as usize);
        assert(t1.method_name(t1.methods_of(m)[n0 as int]) == x);
    }
    if t1.declares(m, x) {
        let k = choose|k: int| 0 <= k < t1.methods_of(m).len() && t1.method_name(#[trigger] t1.methods_of(m)[k]) == x;
        if k < n0 {
            assert(t1.methods_of(m)[k] == t0.methods_of(m)[k]);
            assert(t0.methods_of(m)[k] < t0.methods@.len());
            assert(t0.method_name(t0.methods_of(m)[k]) == x);
        } else {
            assert(t1.methods_of(m)[k] == t0.methods@.len() as usize);
        }
    }
}

/// The method pass over every registered meaning, in declaration order:
/// every method declaration gets the outcome that `method_outcome` states.
pub fn run_methods(host: &mut SModelHost, nodes: &Vec<Meaning>)
    requires
        old(host).table.wf(),
        old(host).table.methods@.len() == 0,
        forall|m: usize| m < old(host).table.meanings@.len() ==> #[trigger] old(host).table.methods_of(m).len() == 0,
        old(host).semantics.shaped(nodes@),
        forall|a: int, j: int| #![trigger old(host).semantics.methods@[a]@[j]] 0 <= a < nodes@.len() && 0 <= j < nodes@[a].methods@.len()
            ==> old(host).semantics.methods@[a]@[j] is None,
        bound_in_order(old(host).semantics.meanings@),
        forall|x: int| 0 <= x < nodes@.len() && #[trigger] old(host).semantics.meanings@[x] is Some
            ==> old(host).table.is_meaning(old(host).semantics.meanings@[x].unwrap()),
        count_total(nodes@, nodes@.len() as int, true) < usize::MAX,
        fields_done(old(host), nodes@, nodes@.len() as int),
        all_bound(old(host).output@, old(host).semantics.meanings@, old(host).table.meanings@.len() as int),
    ensures
        final(host).table.wf(),
        kept(old(host), final(host)),
        final(host).semantics.shaped(nodes@),
        final(host).table.fields == old(host).table.fields,
        forall|m: usize| m < old(host).table.meanings@.len() ==> #[trigger] final(host).table.fields_of(m) == old(host).table.fields_of(m),
        forall|a: int, j: int| #![trigger final(host).semantics.methods@[a]@[j]] 0 <= a < nodes@.len() && 0 <= j < nodes@[a].methods@.len()
            && final(host).semantics.meanings@[a] is None ==> final(host).semantics.methods@[a]@[j] is None,
        methods_done(final(host), nodes@, nodes@.len() as int),
        fields_done(final(host), nodes@, nodes@.len() as int),
        all_bound(final(host).output@, final(host).semantics.meanings@, final(host).table.meanings@.len() as int),
{
    let ghost h0 = *host;
    let ghost sem = host.semantics.meanings@;
    let ghost nm = host.table.meanings@.len() as int;
    let ghost mut next: int = 0;
    let n = nodes.len();
    let mut a: usize = 0;
    proof {
        assert(host.diagnostics@.take(host.diagnostics@.len() as int) =~= host.diagnostics@);
        assert(host.output@.take(host.output@.len() as int) =~= host.output@);
    }
    while a < n
        invariant
            n == nodes@.len(),
            a <= n,
            sem == h0.semantics.meanings@,
            sem.len() == n,
            nm == h0.table.meanings@.len(),
            bound_in_order(sem),
            forall|x: int| 0 <= x < nodes@.len() && #[trigger] sem[x] is Some ==> h0.table.is_meaning(sem[x].unwrap()),
            host.table.wf(),
            kept(&h0, host),
            host.semantics.meanings@ == sem,
            host.semantics.shaped(nodes@),
            host.table.fields == h0.table.fields,
            forall|mm: usize| mm < nm ==> #[trigger] host.table.fields_of(mm) == h0.table.fields_of(mm),
            forall|x: int| a <= x < n && #[trigger] sem[x] is Some ==> host.table.methods_of(sem[x].unwrap()).len() == 0
                && sem[x].unwrap() >= next,
            forall|x: int, g: int| #![trigger host.semantics.methods@[x]@[g]] 0 <= x < n && 0 <= g < nodes@[x].methods@.len()
                && (x >= a || sem[x] is None) ==> host.semantics.methods@[x]@[g] is None,
            forall|s: usize, k: int| s < host.table.methods@.len() && 0 <= k < host.table.overrides_of(s).len()
                ==> (#[trigger] host.table.overrides_of(s)[k]).meaning < next,
            next >= 0,
            methods_done(host, nodes@, a as int),
            fields_done(host, nodes@, n as int),
            all_bound(host.output@, sem, nm),
            host.table.methods@.len() <= count_total(nodes@, a as int, true),
            count_total(nodes@, n as int, true) < usize::MAX,
        decreases n - a,
    {
        proof { lemma_count_total_mono(nodes@, a as int + 1, n as int, true); }
        match host.semantics.meanings[a] {
            Some(m) => {
                let ghost inner = m + 1;
                proof {
                    assert(sem[a as int] is Some);
                    assert forall|x: Seq<char>| #[trigger] host.table.declares(m, x)
                        == (exists|g: int| 0 <= g < 0 && host.semantics.methods@[a as int]@[g] is Some
                            && nodes@[a as int].methods@[g].name@ == x) by {}
                }
                let nmeth = nodes[a].methods.len();
                let mut j: usize = 0;
                while j < nmeth
                    invariant
                        n == nodes@.len(),
                        a < n,
                        nmeth == nodes@[a as int].methods@.len(),
                        j <= nmeth,
                        sem == h0.semantics.meanings@,
                        sem.len() == n,
                        sem[a as int] == Some(m),
                        inner == m + 1,
                        nm == h0.table.meanings@.len(),
                        m < nm,
                        bound_in_order(sem),
                        forall|x: int| 0 <= x < nodes@.len() && #[trigger] sem[x] is Some ==> h0.table.is_meaning(sem[x].unwrap()),
                        host.table.wf(),
                        kept(&h0, host),
                        host.semantics.meanings@ == sem,
                        host.semantics.shaped(nodes@),
                        host.table.fields == h0.table.fields,
                        forall|mm: usize| mm < nm ==> #[trigger] host.table.fields_of(mm) == h0.table.fields_of(mm),
                        forall|x: int| a < x < n && #[trigger] sem[x] is Some ==> host.table.methods_of(sem[x].unwrap()).len() == 0
                            && sem[x].unwrap() >= inner,
                        forall|x: int, g: int| #![trigger host.semantics.methods@[x]@[g]] 0 <= x < n && 0 <= g < nodes@[x].methods@.len()
                            && (x > a || sem[x] is None || (x == a && g >= j)) ==> host.semantics.methods@[x]@[g] is None,
                        overrides_upto(&host.table, m),
                        methods_done(host, nodes@, a as int),
                        forall|g: int| 0 <= g < j ==> method_outcome(&host.table, host.output@, host.diagnostics@,
                            host.semantics.methods@[a as int]@, nodes@[a as int], a, g, m),
                        forall|x: Seq<char>| #[trigger] host.table.declares(m, x)
                            == (exists|g: int| 0 <= g < j && host.semantics.methods@[a as int]@[g] is Some
                                && nodes@[a as int].methods@[g].name@ == x),
                        fields_done(host, nodes@, n as int),
                        all_bound(host.output@, sem, nm),
                        host.table.methods@.len() <= count_total(nodes@, a as int, true) + j,
                        count_total(nodes@, a as int + 1, true) < usize::MAX,
                    decreases nmeth - j,
                {
                    let ghost h1 = *host;
                    let ghost mn = nodes@[a as int].methods@[j as int];
                    ProcessingStep3_8().exec(host, nodes, a, j, m);
                    proof {
                        let t0 = h1.table;
                        let t1 = host.table;
                        let slots0 = h1.semantics.methods@[a as int]@;
                        let slots1 = host.semantics.methods@[a as int]@;
                        let registered = !spec_begins_with_no_receiver(mn.inputs@)
                            && crate::processing_step_3_8::method_error(&t0, m, mn, a, j) is None;
                        // The earlier methods of this declaration decide redefinition.
                        assert(t0.declares(m, mn.name@) == earlier_method_named(slots0, nodes@[a as int], j as int)) by {
                            if t0.declares(m, mn.name@) {
                                let g = choose|g: int| 0 <= g < j && slots0[g] is Some && nodes@[a as int].methods@[g].name@ == mn.name@;
                                assert(slots0[g] is Some);
                            }
                        }
                        if registered {
                            let doc = crate::processing_step_3_8::method_doc(&t0, m, mn);
                            let base = crate::processing_step_3_8::method_base(&t0, m, mn);
                            lemma_added_lookups(&t0, &t1, m, mn.name@, doc, base);
                            assert forall|k: int| 0 <= k < t0.meanings@.len() implies {
                                &&& #[trigger] t1.meanings@[k].name == t0.meanings@[k].name
                                &&& t1.meanings@[k].inherits == t0.meanings@[k].inherits
                                &&& t1.meanings@[k].submeanings == t0.meanings@[k].submeanings
                            } by {
                                if k != m {
                                    assert(t1.meanings@[k] == t0.meanings@[k]);
                                }
                            }
                            assert forall|mm: usize| mm < nm implies #[trigger] t1.fields_of(mm) == h0.table.fields_of(mm) by {
                                if mm != m {
                                    assert(t1.meanings@[mm as int] == t0.meanings@[mm as int]);
                                }
                                assert(t0.fields_of(mm) == h0.table.fields_of(mm));
                            }
                            assert forall|x: int| a < x < n && #[trigger] sem[x] is Some implies t1.methods_of(sem[x].unwrap()).len() == 0
                                && sem[x].unwrap() >= inner by {
                                assert(sem[a as int] is Some);
                                assert(t1.meanings@[sem[x].unwrap() as int] == t0.meanings@[sem[x].unwrap() as int]);
                            }
                            assert forall|x: Seq<char>| #[trigger] t1.declares(m, x)
                                == (exists|g: int| 0 <= g < j + 1 && slots1[g] is Some && nodes@[a as int].methods@[g].name@ == x) by {
                                lemma_declares_after(&t0, &t1, m, mn.name@, doc, base, x);
                                assert forall|g: int| 0 <= g < j implies #[trigger] slots1[g] == slots0[g] by {}
                                if x == mn.name@ {
                                    assert(slots1[j as int] is Some);
                                }
                                if exists|g: int| 0 <= g < j + 1 && slots1[g] is Some && nodes@[a as int].methods@[g].name@ == x {
                                    let g = choose|g: int| 0 <= g < j + 1 && slots1[g] is Some && nodes@[a as int].methods@[g].name@ == x;
                                    if g < j {
                                        assert(slots0[g] is Some);
                                    }
                                }
                                if exists|g: int| 0 <= g < j && slots0[g] is Some && nodes@[a as int].methods@[g].name@ == x {
                                    let g = choose|g: int| 0 <= g < j && slots0[g] is Some && nodes@[a as int].methods@[g].name@ == x;
                                    assert(slots1[g] is Some);
                                }
                            }
                            assert(method_added(&t0, &t1, m, mn.name@, doc, base));
                        } else {
                            assert forall|x: Seq<char>| #[trigger] t1.declares(m, x)
                                == (exists|g: int| 0 <= g < j + 1 && slots1[g] is Some && nodes@[a as int].methods@[g].name@ == x) by {
                                if exists|g: int| 0 <= g < j + 1 && slots1[g] is Some && nodes@[a as int].methods@[g].name@ == x {
                                    let g = choose|g: int| 0 <= g < j + 1 && slots1[g] is Some && nodes@[a as int].methods@[g].name@ == x;
                                    assert(slots0[g] is Some);
                                }
                                if exists|g: int| 0 <= g < j && slots0[g] is Some && nodes@[a as int].methods@[g].name@ == x {
                                    let g = choose|g: int| 0 <= g < j && slots0[g] is Some && nodes@[a as int].methods@[g].name@ == x;
                                    assert(slots1[g] is Some);
                                }
                            }
                            assert(host.output@.take(h1.output@.len() as int) =~= h1.output@);
                            assert(host.diagnostics@.take(h1.diagnostics@.len() as int) =~= h1.diagnostics@);
                        }
                        assert(host.diagnostics@.take(h1.diagnostics@.len() as int) =~= h1.diagnostics@);
                        assert(host.output@.take(h1.output@.len() as int) =~= h1.output@);
                        assert(kept(&h1, host));
                        lemma_kept_trans(&h0, &h1, host);
                        assert forall|x: int, g: int| #![trigger nodes@[x].methods@[g]] 0 <= x < a && sem[x] is Some && 0 <= g < nodes@[x].methods@.len()
                            implies method_outcome(&host.table, host.output@, host.diagnostics@, host.semantics.methods@[x]@, nodes@[x], x as usize, g, sem[x].unwrap()) by {
                            assert(sem[a as int] is Some);
                            assert(host.semantics.methods@[x] == h1.semantics.methods@[x]);
                            lemma_method_outcome_kept(&h1, host, nodes@[x], x as usize, g, sem[x].unwrap(),
                                h1.semantics.methods@[x]@, host.semantics.methods@[x]@);
                        }
                        assert forall|g: int| 0 <= g < j + 1 implies method_outcome(&host.table, host.output@, host.diagnostics@,
                            slots1, nodes@[a as int], a, g, m) by {
                            if g < j {
                                lemma_method_outcome_kept(&h1, host, nodes@[a as int], a, g, m, slots0, slots1);
                            } else {
                                assert forall|q: int| 0 <= q < j implies #[trigger] slots1[q] == slots0[q] by {}
                                assert(earlier_method_named(slots1, nodes@[a as int], j as int) == earlier_method_named(slots0, nodes@[a as int], j as int)) by {
                                    if earlier_method_named(slots0, nodes@[a as int], j as int) {
                                        let q = choose|q: int| 0 <= q < j && #[trigger] slots0[q] is Some && nodes@[a as int].methods@[q].name@ == mn.name@;
                                        assert(slots1[q] is Some);
                                    }
                                    if earlier_method_named(slots1, nodes@[a as int], j as int) {
                                        let q = choose|q: int| 0 <= q < j && #[trigger] slots1[q] is Some && nodes@[a as int].methods@[q].name@ == mn.name@;
                                        assert(slots0[q] is Some);
                                    }
                                }
                                if spec_begins_with_no_receiver(mn.inputs@) {
                                    assert(host.output@.last() == Fragment::StaticMethod { meaning: m, node: a, method: j });
                                    assert(host.output@.contains(Fragment::StaticMethod { meaning: m, node: a, method: j }));
                                    assert(slots1[j as int] is None);
                                } else if !registered {
                                    let d = crate::processing_step_3_8::method_error(&t0, m, mn, a, j).unwrap();
                                    assert(host.diagnostics@.last() == d);
                                    assert(host.diagnostics@.contains(d));
                                    assert(t1 == t0);
                                    assert(slots1[j as int] is None);
                                    assert(method_outcome(&t1, host.output@, host.diagnostics@, slots1, nodes@[a as int], a, g, m));
                                } else {
                                    let k = host.output@.len() - 1;
                                    let doc = crate::processing_step_3_8::method_doc(&t0, m, mn);
                                    let base = crate::processing_step_3_8::method_base(&t0, m, mn);
                                    lemma_added_lookups(&t0, &t1, m, mn.name@, doc, base);
                                    assert(t1.lookup_in_base(m, mn.name@) == t0.lookup_in_base(m, mn.name@));
                                    assert forall|x: Seq<char>| #[trigger] t1.lookup_in_base(m, x) == t0.lookup_in_base(m, x) by {}
                                    lemma_rewrite_frame(&t0, &t1, m, mn.statements@, 0);
                                    assert(is_core_for(&t1, host.output@[k], m, a, j, slots1[j as int].unwrap(), mn));
                                    assert(slots1[j as int] == Some(t0.methods@.len() as usize));
                                    if mn.is_override {
                                        let b = t0.lookup_in_base(m, mn.name@).unwrap();
                                        let e = OverrideEntry { meaning: m, method: t0.methods@.len() as usize };
                                        assert(t1.overrides_of(b) == t0.overrides_of(b).push(e));
                                        assert(t1.overrides_of(b)[t0.overrides_of(b).len() as int] == e);
                                        assert(t1.overrides_of(b).contains(e));
                                    }
                                    assert(exists|q: int| 0 <= q < host.output@.len() && is_core_for(&t1, #[trigger] host.output@[q], m, a, j, slots1[j as int].unwrap(), mn));
                                    assert(method_outcome(&t1, host.output@, host.diagnostics@, slots1, nodes@[a as int], a, g, m));
                                }
                            }
                        }
                        assert forall|x: int, f: int| #![trigger nodes@[x].fields@[f]] 0 <= x < n && sem[x] is Some && 0 <= f < nodes@[x].fields@.len()
                            implies field_outcome(&host.table, host.output@, host.diagnostics@, nodes@[x], x as usize, f, sem[x].unwrap()) by {
                            assert(h1.table.fields_of(sem[x].unwrap()) == host.table.fields_of(sem[x].unwrap()));
                            assert(host.table.fields@.take(h1.table.fields@.len() as int) =~= h1.table.fields@);
                            lemma_field_outcome_kept(&h1, host, nodes@[x], x as usize, f, sem[x].unwrap());
                        }
                        assert forall|k: int| 0 <= k < host.output@.len() implies frag_bound(#[trigger] host.output@[k], sem, nm) by {
                            if k < h1.output@.len() {
                                lemma_prefix_index(h1.output@, host.output@, k);
                            }
                        }
                        assert forall|x: int, g: int| #![trigger host.semantics.methods@[x]@[g]] 0 <= x < n && 0 <= g < nodes@[x].methods@.len()
                            && (x > a || sem[x] is None || (x == a && g >= j + 1)) implies host.semantics.methods@[x]@[g] is None by {
                            if x != a {
                                assert(host.semantics.methods@[x] == h1.semantics.methods@[x]);
                            } else {
                                assert(slots1[g] == slots0[g]);
                            }
                        }
                    }
                    j = j + 1;
                }
                proof {
                    next = inner;
                    assert forall|x: int, g: int| #![trigger nodes@[x].methods@[g]] 0 <= x < a + 1 && sem[x] is Some && 0 <= g < nodes@[x].methods@.len()
                        implies method_outcome(&host.table, host.output@, host.diagnostics@, host.semantics.methods@[x]@, nodes@[x], x as usize, g, sem[x].unwrap()) by {
                        if x == a as int {
                            assert(method_outcome(&host.table, host.output@, host.diagnostics@, host.semantics.methods@[a as int]@, nodes@[a as int], a, g, m));
                        }
                    }
                }
            },
            None => {
                proof {
                    assert forall|x: int, g: int| #![trigger nodes@[x].methods@[g]] 0 <= x < a + 1 && sem[x] is Some && 0 <= g < nodes@[x].methods@.len()
                        implies method_outcome(&host.table, host.output@, host.diagnostics@, host.semantics.methods@[x]@, nodes@[x], x as usize, g, sem[x].unwrap()) by {
                    }
                }
            },
        }
        a = a + 1;
    }
}

pub open spec fn is_data_for(t: &SymbolTable, f: Fragment, m: usize) -> bool {
    match f {
        Fragment::DataRecord { meaning, fields, variants } => meaning == m && fields@ == t.fields_of(m)
            && variants@ == t.meanings@[m as int].submeanings@,
        _ => false,
    }
}

/// How many conversions meaning `m` has: one per strict ancestor and one per
/// strict descendant.
pub open spec fn conversion_count(t: &SymbolTable, m: usize) -> int {
    t.asc_chain(m).len() - 1 + descendants(t, m).len()
}

pub open spec fn is_constructor_for(t: &SymbolTable, f: Fragment, m: usize, a: usize, node: Meaning) -> bool {
    match f {
        Fragment::Constructor { meaning, node: b, chain, parent, super_arguments, arguments } => {
            let names = argument_names(constructor_inputs(node));
            &&& meaning == m
            &&& b == a
            &&& chain@ == t.asc_chain(m)
            &&& parent == t.parent(m)
            &&& super_arguments@ == constructor_super_arguments(node)
            &&& arguments@.len() == names.len()
            &&& forall|k: int| 0 <= k < names.len() ==> #[trigger] arguments@[k]@ == names[k]
        },
        _ => false,
    }
}

/// The fragments of the layout of meaning `m`, bound to declaration `a`: its
/// record, its wrapper followed by its conversions, its constructor and
/// its helpers.
pub open spec fn layout_outcome(t: &SymbolTable, out: Seq<Fragment>, node: Meaning, a: usize, m: usize) -> bool {
    &&& exists|k: int| 0 <= k < out.len() && is_data_for(t, #[trigger] out[k], m)
    &&& exists|w: int| 0 <= w && w + 1 + conversion_count(t, m) <= out.len()
        && #[trigger] out[w] == (Fragment::Wrapper { meaning: m, node: a })
        && conversions(t, m, out.subrange(w + 1, w + 1 + conversion_count(t, m)))
    &&& exists|k: int| 0 <= k < out.len() && is_constructor_for(t, #[trigger] out[k], m, a, node)
    &&& out.contains(Fragment::Helpers { meaning: m })
}

pub open spec fn layout_done(h: &SModelHost, nodes: Seq<Meaning>, upto: int) -> bool {
    let sem = h.semantics.meanings@;
    forall|a: int| 0 <= a < upto && #[trigger] sem[a] is Some ==> layout_outcome(&h.table, h.output@, nodes[a], a as usize, sem[a].unwrap())
}

proof fn lemma_layout_kept(t: &SymbolTable, out0: Seq<Fragment>, out1: Seq<Fragment>, node: Meaning, a: usize, m: usize)
    requires
        layout_outcome(t, out0, node, a, m),
        out1.len() >= out0.len(),
        out1.take(out0.len() as int) == out0,
    ensures
        layout_outcome(t, out1, node, a, m),
{
    let k = choose|k: int| 0 <= k < out0.len() && is_data_for(t, #[trigger] out0[k], m);
    lemma_prefix_index(out0, out1, k);
    let c = conversion_count(t, m);
    let w = choose|w: int| 0 <= w && w + 1 + c <= out0.len()
        && #[trigger] out0[w] == (Fragment::Wrapper { meaning: m, node: a }) && conversions(t, m, out0.subrange(w + 1, w + 1 + c));
    lemma_prefix_index(out0, out1, w);
    assert(out1.subrange(w + 1, w + 1 + c) =~= out0.subrange(w + 1, w + 1 + c)) by {
        assert forall|q: int| 0 <= q < c implies #[trigger] out1.subrange(w + 1, w + 1 + c)[q] == out0.subrange(w + 1, w + 1 + c)[q] by {
            lemma_prefix_index(out0, out1, w + 1 + q);
        }
    }
    let k2 = choose|k: int| 0 <= k < out0.len() && is_constructor_for(t, #[trigger] out0[k], m, a, node);
    lemma_prefix_index(out0, out1, k2);
    lemma_prefix_contains(out0, out1, Fragment::Helpers { meaning: m });
}

/// Emits the layout of every registered meaning; the table stays as it is.
pub fn run_layout(host: &mut SModelHost, nodes: &Vec<Meaning>)
    requires
        old(host).table.wf(),
        old(host).semantics.meanings@.len() == nodes@.len(),
        forall|x: int| 0 <= x < nodes@.len() && #[trigger] old(host).semantics.meanings@[x] is Some
            ==> old(host).table.is_meaning(old(host).semantics.meanings@[x].unwrap()),
        all_bound(old(host).output@, old(host).semantics.meanings@, old(host).table.meanings@.len() as int),
    ensures
        final(host).table == old(host).table,
        final(host).semantics == old(host).semantics,
        kept(old(host), final(host)),
        layout_done(final(host), nodes@, nodes@.len() as int),
        all_bound(final(host).output@, final(host).semantics.meanings@, final(host).table.meanings@.len() as int),
{
    let ghost h0 = *host;
    let ghost sem = host.semantics.meanings@;
    let ghost nm = host.table.meanings@.len() as int;
    let n = nodes.len();
    let mut a: usize = 0;
    proof {
        assert(host.diagnostics@.take(host.diagnostics@.len() as int) =~= host.diagnostics@);
        assert(host.output@.take(host.output@.len() as int) =~= host.output@);
    }
    while a < n
        invariant
            n == nodes@.len(),
            a <= n,
            sem == h0.semantics.meanings@,
            sem.len() == n,
            nm == h0.table.meanings@.len(),
            forall|x: int| 0 <= x < nodes@.len() && #[trigger] sem[x] is Some ==> h0.table.is_meaning(sem[x].unwrap()),
            h0.table.wf(),
            host.table == h0.table,
            host.semantics == h0.semantics,
            kept(&h0, host),
            layout_done(host, nodes@, a as int),
            all_bound(host.output@, sem, nm),
        decreases n - a,
    {
        match host.semantics.meanings[a] {
            Some(m) => {
                let ghost h1 = *host;
                proof { assert(sem[a as int] is Some); }
                define_data(host, m);
                ProcessingStep3_6().exec(host, a, m);
                let ghost h2 = *host;
                ProcessingStep3_7().exec(host, nodes, a, m);
                let ghost h3 = *host;
                host.output.push(Fragment::Helpers { meaning: m });
                proof {
                    let t = host.table;
                    let o1 = h1.output@;
                    let out = host.output@;
                    let w: int = o1.len() as int + 1;
                    let c = conversion_count(&t, m);
                    // The pieces, in order: record, wrapper, conversions, constructor, helpers.
                    assert(h2.output@.take(w) =~= o1.push(h2.output@[o1.len() as int]));
                    assert(out.take(h3.output@.len() as int) =~= h3.output@);
                    assert(h3.output@.take(h2.output@.len() as int) == h2.output@);
                    assert(out.take(o1.len() as int) =~= o1) by {
                        assert forall|q: int| 0 <= q < o1.len() implies #[trigger] out[q] == o1[q] by {
                            lemma_prefix_index(h3.output@, out, q);
                            lemma_prefix_index(h2.output@, h3.output@, q);
                            lemma_prefix_index(h2.output@.take(w), h2.output@, q);
                        }
                    }
                    assert(is_data_for(&t, out[o1.len() as int], m)) by {
                        lemma_prefix_index(h3.output@, out, o1.len() as int);
                        lemma_prefix_index(h2.output@, h3.output@, o1.len() as int);
                    }
                    assert(out[w] == (Fragment::Wrapper { meaning: m, node: a })) by {
                        lemma_prefix_index(h3.output@, out, w);
                        lemma_prefix_index(h2.output@, h3.output@, w);
                    }
                    assert(h2.output@.skip(w + 1).len() == c);
                    assert(out.subrange(w + 1, w + 1 + c) =~= h2.output@.skip(w + 1)) by {
                        assert forall|q: int| 0 <= q < c implies #[trigger] out.subrange(w + 1, w + 1 + c)[q] == h2.output@.skip(w + 1)[q] by {
                            lemma_prefix_index(h3.output@, out, w + 1 + q);
                            lemma_prefix_index(h2.output@, h3.output@, w + 1 + q);
                        }
                    }
                    let kc = h3.output@.len() - 1;
                    assert(is_constructor_for(&t, out[kc], m, a, nodes@[a as int])) by {
                        lemma_prefix_index(h3.output@, out, kc);
                    }
                    assert(out.last() == Fragment::Helpers { meaning: m });
                    assert(out.contains(Fragment::Helpers { meaning: m }));
                    assert(layout_outcome(&t, out, nodes@[a as int], a, m));
                    assert(host.diagnostics@.take(h0.diagnostics@.len() as int) =~= h0.diagnostics@.take(h0.diagnostics@.len() as int));
                    assert(h3.diagnostics@.take(h1.diagnostics@.len() as int) == h1.diagnostics@);
                    assert(host.diagnostics@.take(h1.diagnostics@.len() as int) =~= h1.diagnostics@);
                    assert(kept(&h1, host));
                    lemma_kept_trans(&h0, &h1, host);
                    assert forall|x: int| 0 <= x < a + 1 && #[trigger] sem[x] is Some implies
                        layout_outcome(&t, out, nodes@[x], x as usize, sem[x].unwrap()) by {
                        if x < a {
                            lemma_layout_kept(&t, o1, out, nodes@[x], x as usize, sem[x].unwrap());
                        }
                    }
                    assert forall|k: int| 0 <= k < out.len() implies frag_bound(#[trigger] out[k], sem, nm) by {
                        if k < o1.len() {
                            lemma_prefix_index(o1, out, k);
                        } else if k > w && k < w + 1 + c {
                            let rest = h2.output@.skip(w + 1);
                            let up = t.asc_chain(m).len() - 1;
                            assert(out[k] == rest[k - w - 1]);
                            if k - w - 1 < up {
                                assert(is_upcast(rest[k - w - 1], m, t.asc_chain(m)[up - 1 - (k - w - 1)], (k - w) as usize));
                            } else {
                                let d = k - w - 1 - up;
                                assert(is_downcast(rest[up + d], m, descendants(&t, m)[d],
                                    t.asc_chain(descendants(&t, m)[d]).skip(t.asc_chain(m).len() as int)));
                            }
                        }
                    }
                }
            },
            None => {
                proof {
                    assert forall|x: int| 0 <= x < a + 1 && #[trigger] sem[x] is Some implies
                        layout_outcome(&host.table, host.output@, nodes@[x], x as usize, sem[x].unwrap()) by {}
                }
            },
        }
        a = a + 1;
    }
}

/// The public entry emitted for method `j` of declaration `a`, bound to
/// symbol `s`: it lists the whole override table of `s`.
pub open spec fn is_dispatch_for(t: &SymbolTable, f: Fragment, a: usize, j: usize, s: usize, mn: MeaningMethod) -> bool {
    match f {
        Fragment::DispatchEntry { meaning, node, method, symbol, arguments, overrides } => {
            let names = argument_names(mn.inputs@.skip(1));
            &&& meaning == t.defined_in(s)
            &&& node == a
            &&& method == j
            &&& symbol == s
            &&& overrides@ == t.overrides_of(s)
            &&& arguments@.len() == names.len()
            &&& forall|k: int| 0 <= k < names.len() ==> #[trigger] arguments@[k]@ == names[k]
        },
        _ => false,
    }
}

/// Every method declaration bound to a symbol has its public entry.
pub open spec fn dispatch_done(h: &SModelHost, nodes: Seq<Meaning>, upto: int) -> bool {
    forall|a: int, j: int| #![trigger h.semantics.methods@[a]@[j]] 0 <= a < upto && 0 <= j < nodes[a].methods@.len()
        && h.semantics.methods@[a]@[j] is Some ==> exists|k: int| 0 <= k < h.output@.len()
            && is_dispatch_for(&h.table, #[trigger] h.output@[k], a as usize, j as usize, h.semantics.methods@[a]@[j].unwrap(), nodes[a].methods@[j])
}

/// Only a declaration bound to a meaning has methods bound to symbols.
pub open spec fn unbound_have_no_methods(h: &SModelHost, nodes: Seq<Meaning>) -> bool {
    forall|a: int, j: int| #![trigger h.semantics.methods@[a]@[j]] 0 <= a < nodes.len() && 0 <= j < nodes[a].methods@.len()
        && h.semantics.meanings@[a] is None ==> h.semantics.methods@[a]@[j] is None
}

/// Outcomes computed on one table stay true while it stays and the output
/// and diagnostics only grow.
proof fn lemma_done_kept(h1: &SModelHost, h2: &SModelHost, nodes: Seq<Meaning>)
    requires
        h1.table.wf(),
        h2.table == h1.table,
        h2.semantics == h1.semantics,
        kept(h1, h2),
        h1.semantics.meanings@.len() == nodes.len(),
        h1.semantics.shaped(nodes),
        forall|x: int| 0 <= x < nodes.len() && #[trigger] h1.semantics.meanings@[x] is Some
            ==> h1.table.is_meaning(h1.semantics.meanings@[x].unwrap()),
        fields_done(h1, nodes, nodes.len() as int),
        methods_done(h1, nodes, nodes.len() as int),
    ensures
        fields_done(h2, nodes, nodes.len() as int),
        methods_done(h2, nodes, nodes.len() as int),
{
    let sem = h1.semantics.meanings@;
    assert(h2.table.fields@.take(h1.table.fields@.len() as int) =~= h1.table.fields@);
    assert forall|a: int, f: int| #![trigger nodes[a].fields@[f]] 0 <= a < nodes.len() && sem[a] is Some && 0 <= f < nodes[a].fields@.len()
        implies field_outcome(&h2.table, h2.output@, h2.diagnostics@, nodes[a], a as usize, f, sem[a].unwrap()) by {
        lemma_field_outcome_kept(h1, h2, nodes[a], a as usize, f, sem[a].unwrap());
    }
    assert forall|a: int, j: int| #![trigger nodes[a].methods@[j]] 0 <= a < nodes.len() && sem[a] is Some && 0 <= j < nodes[a].methods@.len()
        implies method_outcome(&h2.table, h2.output@, h2.diagnostics@, h2.semantics.methods@[a]@, nodes[a], a as usize, j, sem[a].unwrap()) by {
        lemma_method_outcome_kept(h1, h2, nodes[a], a as usize, j, sem[a].unwrap(), h1.semantics.methods@[a]@, h2.semantics.methods@[a]@);
    }
}

/// Emits the public entry of every method declaration bound to a symbol,
/// once every override table is complete; the table stays as it is.
pub fn run_dispatch(host: &mut SModelHost, nodes: &Vec<Meaning>)
    requires
        old(host).table.wf(),
        old(host).semantics.meanings@.len() == nodes@.len(),
        old(host).semantics.shaped(nodes@),
        forall|x: int| 0 <= x < nodes@.len() && #[trigger] old(host).semantics.meanings@[x] is Some
            ==> old(host).table.is_meaning(old(host).semantics.meanings@[x].unwrap()),
        methods_done(old(host), nodes@, nodes@.len() as int),
        unbound_have_no_methods(old(host), nodes@),
        all_bound(old(host).output@, old(host).semantics.meanings@, old(host).table.meanings@.len() as int),
    ensures
        final(host).table == old(host).table,
        final(host).semantics == old(host).semantics,
        kept(old(host), final(host)),
        dispatch_done(final(host), nodes@, nodes@.len() as int),
        all_bound(final(host).output@, final(host).semantics.meanings@, final(host).table.meanings@.len() as int),
{
    let ghost h0 = *host;
    let ghost sem = host.semantics.meanings@;
    let ghost nm = host.table.meanings@.len() as int;
    let n = nodes.len();
    let mut a: usize = 0;
    proof {
        assert(host.diagnostics@.take(host.diagnostics@.len() as int) =~= host.diagnostics@);
        assert(host.output@.take(host.output@.len() as int) =~= host.output@);
    }
    while a < n
        invariant
            n == nodes@.len(),
            a <= n,
            host.table == h0.table,
            host.semantics == h0.semantics,
            h0.table.wf(),
            h0.semantics.shaped(nodes@),
            sem == h0.semantics.meanings@,
            nm == h0.table.meanings@.len(),
            methods_done(&h0, nodes@, n as int),
            unbound_have_no_methods(&h0, nodes@),
            kept(&h0, host),
            dispatch_done(host, nodes@, a as int),
            all_bound(host.output@, sem, nm),
        decreases n - a,
    {
        let nmeth = nodes[a].methods.len();
        let mut j: usize = 0;
        while j < nmeth
            invariant
                n == nodes@.len(),
                a < n,
                nmeth == nodes@[a as int].methods@.len(),
                j <= nmeth,
                host.table == h0.table,
                host.semantics == h0.semantics,
                h0.table.wf(),
                h0.semantics.shaped(nodes@),
                sem == h0.semantics.meanings@,
                nm == h0.table.meanings@.len(),
                methods_done(&h0, nodes@, n as int),
                unbound_have_no_methods(&h0, nodes@),
                kept(&h0, host),
                dispatch_done(host, nodes@, a as int),
                forall|g: int| #![trigger host.semantics.methods@[a as int]@[g]] 0 <= g < j && host.semantics.methods@[a as int]@[g] is Some
                    ==> exists|k: int| 0 <= k < host.output@.len() && is_dispatch_for(&host.table, #[trigger] host.output@[k], a, g as usize,
                        host.semantics.methods@[a as int]@[g].unwrap(), nodes@[a as int].methods@[g]),
                all_bound(host.output@, sem, nm),
            decreases nmeth - j,
        {
            let ghost h1 = *host;
            ProcessingStep3_9().exec(host, nodes, a, j);
            proof {
                let out0 = h1.output@;
                let out1 = host.output@;
                assert(out1.take(out0.len() as int) =~= out0);
                assert(host.diagnostics@.take(h1.diagnostics@.len() as int) =~= h1.diagnostics@);
                assert(kept(&h1, host));
                lemma_kept_trans(&h0, &h1, host);
                let slot = h0.semantics.methods@[a as int]@[j as int];
                if let Some(s) = slot {
                    assert(sem[a as int] is Some);
                    let m = sem[a as int].unwrap();
                    assert(method_outcome(&h0.table, h0.output@, h0.diagnostics@, h0.semantics.methods@[a as int]@,
                        nodes@[a as int], a, j as int, m));
                    assert(h0.table.defined_in(s) == m);
                    let k = out1.len() - 1;
                    assert(is_dispatch_for(&host.table, out1[k], a, j, s, nodes@[a as int].methods@[j as int]));
                }
                assert forall|x: int, g: int| #![trigger host.semantics.methods@[x]@[g]] 0 <= x < a && 0 <= g < nodes@[x].methods@.len()
                    && host.semantics.methods@[x]@[g] is Some implies exists|k: int| 0 <= k < out1.len()
                        && is_dispatch_for(&host.table, #[trigger] out1[k], x as usize, g as usize, host.semantics.methods@[x]@[g].unwrap(), nodes@[x].methods@[g]) by {
                    let k = choose|k: int| 0 <= k < out0.len()
                        && is_dispatch_for(&h1.table, #[trigger] out0[k], x as usize, g as usize, h1.semantics.methods@[x]@[g].unwrap(), nodes@[x].methods@[g]);
                    lemma_prefix_index(out0, out1, k);
                }
                assert forall|g: int| #![trigger host.semantics.methods@[a as int]@[g]] 0 <= g < j + 1 && host.semantics.methods@[a as int]@[g] is Some
                    implies exists|k: int| 0 <= k < out1.len() && is_dispatch_for(&host.table, #[trigger] out1[k], a, g as usize,
                        host.semantics.methods@[a as int]@[g].unwrap(), nodes@[a as int].methods@[g]) by {
                    if g < j {
                        let k = choose|k: int| 0 <= k < out0.len() && is_dispatch_for(&h1.table, #[trigger] out0[k], a, g as usize,
                            h1.semantics.methods@[a as int]@[g].unwrap(), nodes@[a as int].methods@[g]);
                        lemma_prefix_index(out0, out1, k);
                    } else {
                        let k = out1.len() - 1;
                        assert(is_dispatch_for(&host.table, out1[k], a, j, slot.unwrap(), nodes@[a as int].methods@[j as int]));
                    }
                }
                assert forall|k: int| 0 <= k < out1.len() implies frag_bound(#[trigger] out1[k], sem, nm) by {
                    if k < out0.len() {
                        lemma_prefix_index(out0, out1, k);
                    }
                }
            }
            j = j + 1;
        }
        a = a + 1;
    }
}

/// Runs the passes after the first: fields, then methods in declaration
/// order (which fills the override tables), then, with the table final, the
/// layout of every registered meaning and the public entry of every bound
/// method. Every outcome is stated per declaration, over the final table;
/// the output holds fragments of registered meanings only.
pub fn generate(host: &mut SModelHost, nodes: &Vec<Meaning>)
    requires
        resolved_upto(old(host), nodes@, nodes@.len() as int),
        count_total(nodes@, nodes@.len() as int, false) < usize::MAX,
        count_total(nodes@, nodes@.len() as int, true) < usize::MAX,
    ensures
        final(host).table.wf(),
        kept(old(host), final(host)),
        final(host).semantics.shaped(nodes@),
        fields_done(final(host), nodes@, nodes@.len() as int),
        methods_done(final(host), nodes@, nodes@.len() as int),
        layout_done(final(host), nodes@, nodes@.len() as int),
        dispatch_done(final(host), nodes@, nodes@.len() as int),
        unbound_have_no_methods(final(host), nodes@),
        all_bound(final(host).output@, final(host).semantics.meanings@, final(host).table.meanings@.len() as int),
{
    let ghost h0 = *host;
    proof {
        assert forall|x: int| 0 <= x < nodes@.len() && #[trigger] h0.semantics.meanings@[x] is Some
            implies h0.table.is_meaning(h0.semantics.meanings@[x].unwrap()) by {
            assert(crate::pipeline::stands_for(&h0.table, h0.semantics.meanings@[x].unwrap(), nodes@[x]));
        }
    }
    run_fields(host, nodes);
    let ghost h1 = *host;
    proof {
        assert forall|m: usize| m < h1.table.meanings@.len() implies #[trigger] h1.table.methods_of(m).len() == 0 by {
            assert(h0.table.is_meaning(m));
            assert(resolved_upto(&h0, nodes@, nodes@.len() as int));
            assert(h0.table.fields_of(m).len() == 0 && h0.table.methods_of(m).len() == 0);
            assert(h1.table.methods_of(m) == h0.table.methods_of(m));
        }
    }
    run_methods(host, nodes);
    let ghost h2 = *host;
    proof { lemma_kept_trans(&h0, &h1, &h2); }
    run_layout(host, nodes);
    let ghost h3 = *host;
    proof {
        lemma_kept_trans(&h0, &h2, &h3);
        lemma_done_kept(&h2, &h3, nodes@);
        assert(unbound_have_no_methods(&h3, nodes@));
    }
    run_dispatch(host, nodes);
    proof {
        lemma_kept_trans(&h0, &h3, host);
        lemma_done_kept(&h3, host, nodes@);
        assert forall|a: int| 0 <= a < nodes@.len() && #[trigger] host.semantics.meanings@[a] is Some implies
            layout_outcome(&host.table, host.output@, nodes@[a], a as usize, host.semantics.meanings@[a].unwrap()) by {
            lemma_layout_kept(&host.table, h3.output@, host.output@, nodes@[a], a as usize, host.semantics.meanings@[a].unwrap());
        }
    }
}

/// Everything `generate` states stays true while the table and bindings stay
/// and the output and diagnostics only grow.
pub proof fn lemma_generated_kept(h1: &SModelHost, h2: &SModelHost, nodes: Seq<Meaning>)
    requires
        h1.table.wf(),
        h2.table == h1.table,
        h2.semantics == h1.semantics,
        kept(h1, h2),
        h1.semantics.meanings@.len() == nodes.len(),
        h1.semantics.shaped(nodes),
        forall|x: int| 0 <= x < nodes.len() && #[trigger] h1.semantics.meanings@[x] is Some
            ==> h1.table.is_meaning(h1.semantics.meanings@[x].unwrap()),
        fields_done(h1, nodes, nodes.len() as int),
        methods_done(h1, nodes, nodes.len() as int),
        layout_done(h1, nodes, nodes.len() as int),
        dispatch_done(h1, nodes, nodes.len() as int),
    ensures
        fields_done(h2, nodes, nodes.len() as int),
        methods_done(h2, nodes, nodes.len() as int),
        layout_done(h2, nodes, nodes.len() as int),
        dispatch_done(h2, nodes, nodes.len() as int),
{
    lemma_done_kept(h1, h2, nodes);
    assert forall|a: int| 0 <= a < nodes.len() && #[trigger] h2.semantics.meanings@[a] is Some implies
        layout_outcome(&h2.table, h2.output@, nodes[a], a as usize, h2.semantics.meanings@[a].unwrap()) by {
        lemma_layout_kept(&h2.table, h1.output@, h2.output@, nodes[a], a as usize, h2.semantics.meanings@[a].unwrap());
    }
    assert forall|a: int, j: int| #![trigger h2.semantics.methods@[a]@[j]] 0 <= a < nodes.len() && 0 <= j < nodes[a].methods@.len()
        && h2.semantics.methods@[a]@[j] is Some implies exists|k: int| 0 <= k < h2.output@.len()
            && is_dispatch_for(&h2.table, #[trigger] h2.output@[k], a as usize, j as usize, h2.semantics.methods@[a]@[j].unwrap(), nodes[a].methods@[j]) by {
        let k = choose|k: int| 0 <= k < h1.output@.len()
            && is_dispatch_for(&h1.table, #[trigger] h1.output@[k], a as usize, j as usize, h1.semantics.methods@[a]@[j].unwrap(), nodes[a].methods@[j]);
        lemma_prefix_index(h1.output@, h2.output@, k);
    }
}

/// Overriding through the passes is transitive and the most derived override
/// wins. Say method `jd` of declaration `ad` is an `override`, and method
/// `je` of declaration `ae` is an `override` of it: the method that the
/// meaning of `ae` inherits under that name is the one of `ad`. Then on an
/// instance of the meaning of `ae`, a call of that name through any view
/// from the meaning of the method that `ad` overrides down runs the method
/// of `ae`; its `super` call reaches the method of `ad`, and that one's the
/// method it overrides.
pub proof fn lemma_passes_most_derived(h: &SModelHost, nodes: Seq<Meaning>, ad: int, jd: int, ae: int, je: int, view: usize)
    requires
        h.table.wf(),
        methods_done(h, nodes, nodes.len() as int),
        0 <= ad < nodes.len(),
        0 <= jd < nodes[ad].methods@.len(),
        0 <= ae < nodes.len(),
        0 <= je < nodes[ae].methods@.len(),
        h.semantics.meanings@[ad] is Some,
        h.semantics.meanings@[ae] is Some,
        h.semantics.methods@[ad]@[jd] is Some,
        h.semantics.methods@[ae]@[je] is Some,
        nodes[ad].methods@[jd].is_override,
        nodes[ae].methods@[je].is_override,
        h.table.lookup_in_base(h.semantics.meanings@[ae].unwrap(), nodes[ae].methods@[je].name@)
            == h.semantics.methods@[ad]@[jd],
        h.table.is_ancestor_or_self(
            h.table.defined_in(h.table.lookup_in_base(h.semantics.meanings@[ad].unwrap(), nodes[ad].methods@[jd].name@).unwrap()),
            view),
        h.table.is_ancestor_or_self(view, h.semantics.meanings@[ae].unwrap()),
    ensures
        ({
            let t = h.table;
            let d = h.semantics.meanings@[ad].unwrap();
            let e = h.semantics.meanings@[ae].unwrap();
            let sd = h.semantics.methods@[ad]@[jd].unwrap();
            let se = h.semantics.methods@[ae]@[je].unwrap();
            let name = nodes[ad].methods@[jd].name@;
            let sa = t.lookup_in_base(d, name).unwrap();
            &&& crate::dispatch::call_target(&t, view, name, t.asc_chain(e)) == Some(se)
            &&& t.lookup_in_base(e, name) == Some(sd)
            &&& t.lookup_in_base(d, name) == Some(sa)
        }),
{
    let t = h.table;
    let d = h.semantics.meanings@[ad].unwrap();
    let e = h.semantics.meanings@[ae].unwrap();
    let sd = h.semantics.methods@[ad]@[jd].unwrap();
    let se = h.semantics.methods@[ae]@[je].unwrap();
    let name = nodes[ad].methods@[jd].name@;
    assert(method_outcome(&t, h.output@, h.diagnostics@, h.semantics.methods@[ad]@, nodes[ad], ad as usize, jd, d));
    assert(method_outcome(&t, h.output@, h.diagnostics@, h.semantics.methods@[ae]@, nodes[ae], ae as usize, je, e));
    let sa = t.lookup_in_base(d, name).unwrap();
    assert(t.wf_method(sd));
    assert(t.wf_meaning(d));
    lemma_lookup_found(&t, t.parent(d).unwrap(), name);
    assert(t.method_name(sd) == name);
    assert(nodes[ae].methods@[je].name@ == name);
    crate::dispatch::lemma_override_most_derived(&t, sa, sd, se, view);
}

} // verus!
