use vstd::prelude::*;
use crate::host::{Diagnostic, Fragment, SModelHost};
use crate::processing_step_2::{resolution_error, ProcessingStep2};
use crate::generation::{
    all_bound, count_total, dispatch_done, fields_done, frag_bound, generate, layout_done, lemma_generated_kept,
    lemma_prefix_contains, lemma_prefix_index, methods_done, unbound_have_no_methods, bound_in_order,
};
use crate::symbol::SymbolTable;
use crate::tree::Meaning;

verus! {

/// `d` reports that declaration `i` could not be registered.
pub open spec fn rejects(d: Diagnostic, i: usize) -> bool {
    ||| d == Diagnostic::RootInherits { node: i }
    ||| d == Diagnostic::MissingBase { node: i }
    ||| d == Diagnostic::BaseNotFound { node: i }
    ||| d == Diagnostic::Redefinition { node: i }
}

/// An earlier declaration than `a` was registered under `name`.
pub open spec fn registered_before(nodes: Seq<Meaning>, sem: Seq<Option<usize>>, a: int, name: Seq<char>) -> bool {
    exists|b: int| 0 <= b < a && sem[b] is Some && #[trigger] nodes[b].name@ == name
}

/// What keeps declaration `a` from being registered, given which of the
/// declarations before it were: a parent on the first, none on another, a
/// parent that no earlier declaration registered, or a name that one did.
pub open spec fn rejection(nodes: Seq<Meaning>, sem: Seq<Option<usize>>, a: int) -> Option<Diagnostic> {
    let node = nodes[a];
    if a == 0 && node.inherits is Some {
        Some(Diagnostic::RootInherits { node: a as usize })
    } else if a > 0 && node.inherits is None {
        Some(Diagnostic::MissingBase { node: a as usize })
    } else if node.inherits is Some && !registered_before(nodes, sem, a, node.inherits.unwrap()@) {
        Some(Diagnostic::BaseNotFound { node: a as usize })
    } else if registered_before(nodes, sem, a, node.name@) {
        Some(Diagnostic::Redefinition { node: a as usize })
    } else {
        None
    }
}

/// Each of the first `i` declarations is unbound exactly when it has a
/// `rejection`, which is then reported.
#[verifier::opaque]
pub open spec fn rejections_upto(sem: Seq<Option<usize>>, diags: Seq<Diagnostic>, nodes: Seq<Meaning>, i: int) -> bool {
    forall|a: int| 0 <= a < i ==> (#[trigger] sem[a] is None <==> rejection(nodes, sem, a) is Some)
        && (sem[a] is None ==> diags.contains(rejection(nodes, sem, a).unwrap()))
}

/// `d` reports that one of the first `i` declarations could not be registered.
pub open spec fn rejects_one_of(d: Diagnostic, i: int) -> bool {
    exists|a: int| 0 <= a < i && #[trigger] rejects(d, a as usize)
}

/// Meaning `m` of `t` stands for declaration `node`: same name, and a parent
/// of the declared name where one is declared.
pub open spec fn stands_for(t: &SymbolTable, m: usize, node: Meaning) -> bool {
    &&& t.is_meaning(m)
    &&& t.meanings@[m as int].name@ == node.name@
    &&& match (node.inherits, t.parent(m)) {
        (Some(pn), Some(p)) => t.is_meaning(p) && t.meanings@[p as int].name@ == pn@,
        (None, None) => true,
        _ => false,
    }
}

/// What the first pass leaves behind for `nodes`, once it has seen the
/// first `i` of them.
pub open spec fn resolved_upto(host: &SModelHost, nodes: Seq<Meaning>, i: int) -> bool {
    let t = host.table;
    let sem = host.semantics.meanings@;
    &&& t.wf()
    &&& t.meanings@.len() <= i
    &&& t.fields@.len() == 0
    &&& t.methods@.len() == 0
    &&& forall|m: usize| #![trigger t.fields_of(m)] #![trigger t.methods_of(m)] t.is_meaning(m)
        ==> t.fields_of(m).len() == 0 && t.methods_of(m).len() == 0
    &&& host.output@.len() == 0
    &&& host.semantics.shaped(nodes)
    &&& forall|a: int, j: int| 0 <= a < nodes.len() && 0 <= j < nodes[a].methods@.len()
        ==> #[trigger] host.semantics.methods@[a]@[j] is None
    &&& forall|a: int| i <= a < nodes.len() ==> #[trigger] sem[a] is None
    &&& forall|a: int| 0 <= a < nodes.len() && #[trigger] sem[a] is Some ==> stands_for(&t, sem[a].unwrap(), nodes[a])
    &&& forall|a: int, b: int| 0 <= a < b < nodes.len() && #[trigger] sem[a] is Some && #[trigger] sem[b] is Some
        ==> sem[a].unwrap() < sem[b].unwrap()
    &&& forall|m: usize| t.is_meaning(m) ==> exists|a: int| 0 <= a < i && #[trigger] sem[a] == Some(m)
    &&& rejections_upto(host.semantics.meanings@, host.diagnostics@, nodes, i)
    &&& forall|k: int| 0 <= k < host.diagnostics@.len() ==> rejects_one_of(#[trigger] host.diagnostics@[k], i)
}

/// Runs the first pass over every declaration, in order. The table then
/// holds one meaning for each declaration that could be registered, with
/// its name and its parent's, and the declaration is bound to it; every
/// other declaration is reported once at least, and nothing else is.
/// Meanings are bound in declaration order, and the first declaration, if
/// it names no parent, becomes the root.
pub fn resolve(nodes: &Vec<Meaning>) -> (host: SModelHost)
    ensures
        resolved_upto(&host, nodes@, nodes@.len() as int),
        nodes@.len() > 0 && nodes@[0].inherits is None ==> host.semantics.meanings@[0] == Some(0usize),
{
    let mut host = SModelHost::new(nodes);
    let n = nodes.len();
    let mut i: usize = 0;
    proof {
        reveal(rejections_upto);
        assert forall|m: usize| host.table.is_meaning(m) implies #[trigger] host.table.fields_of(m).len() == 0
            && host.table.methods_of(m).len() == 0 by {}
    }
    while i < n
        invariant
            n == nodes@.len(),
            i <= n,
            resolved_upto(&host, nodes@, i as int),
            n > 0 && nodes@[0].inherits is None && i > 0 ==> host.semantics.meanings@[0] == Some(0usize),
        decreases n - i,
    {
        let ghost h0 = host;
        let ghost err = resolution_error(&host.table, nodes@[i as int], i);
        ProcessingStep2().exec(&mut host, nodes, i);
        proof {
            lemma_resolved_step(&h0, &host, nodes@, i);
        }
        i = i + 1;
    }
    host
}

/// `rejection` reads only the bindings of the declarations before `a`.
proof fn lemma_rejection_stable(nodes: Seq<Meaning>, s0: Seq<Option<usize>>, s1: Seq<Option<usize>>, a: int)
    requires
        forall|b: int| 0 <= b < a ==> #[trigger] s1[b] == s0[b],
    ensures
        rejection(nodes, s1, a) == rejection(nodes, s0, a),
{
    assert forall|nm: Seq<char>| registered_before(nodes, s1, a, nm) == registered_before(nodes, s0, a, nm) by {
        if registered_before(nodes, s1, a, nm) {
            let b = choose|b: int| 0 <= b < a && s1[b] is Some && #[trigger] nodes[b].name@ == nm;
            assert(s0[b] == s1[b]);
        }
        if registered_before(nodes, s0, a, nm) {
            let b = choose|b: int| 0 <= b < a && s0[b] is Some && #[trigger] nodes[b].name@ == nm;
            assert(s0[b] == s1[b]);
        }
    }
}

/// While the first `i` declarations are resolved, a name is registered in
/// the table exactly when an earlier declaration registered it; so the
/// problem the first pass finds with declaration `i` is its `rejection`.
proof fn lemma_rejection_at(h0: &SModelHost, nodes: Seq<Meaning>, i: usize)
    requires
        i < nodes.len(),
        resolved_upto(h0, nodes, i as int),
    ensures
        resolution_error(&h0.table, nodes[i as int], i) == rejection(nodes, h0.semantics.meanings@, i as int),
        forall|b: int| 0 <= b < i ==> #[trigger] h0.semantics.meanings@.update(i as int, Some(h0.table.meanings@.len() as usize))[b]
            == h0.semantics.meanings@[b],
{
    let t0 = h0.table;
    let s0 = h0.semantics.meanings@;
    assert forall|nm: Seq<char>| crate::processing_step_2::has_meaning_named(&t0, nm) == registered_before(nodes, s0, i as int, nm) by {
        if crate::processing_step_2::has_meaning_named(&t0, nm) {
            let m = choose|m: usize| t0.is_meaning(m) && t0.meanings@[m as int].name@ == nm;
            let b = choose|b: int| 0 <= b < i && #[trigger] s0[b] == Some(m);
            assert(stands_for(&t0, m, nodes[b]));
        }
        if registered_before(nodes, s0, i as int, nm) {
            let b = choose|b: int| 0 <= b < i && s0[b] is Some && #[trigger] nodes[b].name@ == nm;
            assert(stands_for(&t0, s0[b].unwrap(), nodes[b]));
        }
    }
}

/// The rejections stay exact when one more declaration is resolved.
proof fn lemma_rejection_step(h0: &SModelHost, h1: &SModelHost, nodes: Seq<Meaning>, i: usize)
    requires
        i < nodes.len(),
        resolved_upto(h0, nodes, i as int),
        match resolution_error(&h0.table, nodes[i as int], i) {
            Some(d) => h1.diagnostics@ == h0.diagnostics@.push(d) && h1.semantics.meanings == h0.semantics.meanings,
            None => h1.diagnostics == h0.diagnostics
                && h1.semantics.meanings@ == h0.semantics.meanings@.update(i as int, Some(h0.table.meanings@.len() as usize)),
        },
    ensures
        rejections_upto(h1.semantics.meanings@, h1.diagnostics@, nodes, i + 1),
{
    reveal(rejections_upto);
    let s0 = h0.semantics.meanings@;
    let s1 = h1.semantics.meanings@;
    lemma_rejection_at(h0, nodes, i);
    assert forall|a: int| 0 <= a < i + 1 implies (#[trigger] s1[a] is None <==> rejection(nodes, s1, a) is Some)
        && (s1[a] is None ==> h1.diagnostics@.contains(rejection(nodes, s1, a).unwrap())) by {
        assert forall|b: int| 0 <= b < a implies #[trigger] s1[b] == s0[b] by {}
        lemma_rejection_stable(nodes, s0, s1, a);
        if a < i {
            assert(s1[a] == s0[a]);
            if s0[a] is None {
                let k = choose|k: int| 0 <= k < h0.diagnostics@.len() && h0.diagnostics@[k] == rejection(nodes, s0, a).unwrap();
                assert(h1.diagnostics@[k] == h0.diagnostics@[k]);
            }
        } else if s1[a] is None {
            assert(h1.diagnostics@[h0.diagnostics@.len() as int] == rejection(nodes, s0, a).unwrap());
        }
    }
}

/// One more declaration through the first pass keeps `resolved_upto`.
proof fn lemma_resolved_step(h0: &SModelHost, h1: &SModelHost, nodes: Seq<Meaning>, i: usize)
    requires
        i < nodes.len(),
        resolved_upto(h0, nodes, i as int),
        nodes.len() > 0 && nodes[0].inherits is None && i > 0 ==> h0.semantics.meanings@[0] == Some(0usize),
        h1.table.wf(),
        h1.output == h0.output,
        h1.semantics.methods == h0.semantics.methods,
        match resolution_error(&h0.table, nodes[i as int], i) {
            Some(d) => {
                &&& h1.diagnostics@ == h0.diagnostics@.push(d)
                &&& h1.table == h0.table
                &&& h1.semantics.meanings == h0.semantics.meanings
            },
            None => {
                &&& h1.diagnostics == h0.diagnostics
                &&& crate::processing_step_2::meaning_added(&h0.table, &h1.table, nodes[i as int].name@,
                    crate::processing_step_2::resolved_parent(&h0.table, nodes[i as int]))
                &&& h1.semantics.meanings@ == h0.semantics.meanings@.update(i as int, Some(h0.table.meanings@.len() as usize))
            },
        },
    ensures
        resolved_upto(h1, nodes, i + 1),
        nodes.len() > 0 && nodes[0].inherits is None ==> h1.semantics.meanings@[0] == Some(0usize),
{
    let t0 = h0.table;
    let t1 = h1.table;
    let s0 = h0.semantics.meanings@;
    let s1 = h1.semantics.meanings@;
    let node = nodes[i as int];
    match resolution_error(&t0, node, i) {
        Some(d) => {
            assert(rejects(d, i));
            assert(h1.diagnostics@[h0.diagnostics@.len() as int] == d);
            lemma_rejection_step(h0, h1, nodes, i);
            assert forall|k: int| 0 <= k < h1.diagnostics@.len() implies rejects_one_of(#[trigger] h1.diagnostics@[k], i + 1) by {
                if k < h0.diagnostics@.len() {
                    assert(h1.diagnostics@[k] == h0.diagnostics@[k]);
                    assert(rejects_one_of(h0.diagnostics@[k], i as int));
                    let a = choose|a: int| 0 <= a < i && #[trigger] rejects(h0.diagnostics@[k], a as usize);
                    assert(rejects(h1.diagnostics@[k], a as usize));
                } else {
                    assert(k == h0.diagnostics@.len());
                    assert(h1.diagnostics@[k] == d);
                    assert(rejects(h1.diagnostics@[k], (i as int) as usize));
                }
            }
            assert forall|m: usize| t1.is_meaning(m) implies exists|a: int| 0 <= a < i + 1 && #[trigger] s1[a] == Some(m) by {
                let a = choose|a: int| 0 <= a < i && #[trigger] s0[a] == Some(m);
            }
            if nodes.len() > 0 && nodes[0].inherits is None && i == 0 {
                assert(false);
            }
        },
        None => {
            let nm = t0.meanings@.len() as usize;
            let parent = crate::processing_step_2::resolved_parent(&t0, node);
            assert forall|k: int| 0 <= k < t0.meanings@.len() implies #[trigger] t1.meanings@[k].name == t0.meanings@[k].name
                && t1.meanings@[k].inherits == t0.meanings@[k].inherits
                && t1.meanings@[k].fields == t0.meanings@[k].fields
                && t1.meanings@[k].methods == t0.meanings@[k].methods by {
                if parent != Some(k as usize) {
                    assert(t1.meanings@[k] == t0.meanings@[k]);
                }
            }
            assert forall|m: usize| t1.is_meaning(m) implies #[trigger] t1.fields_of(m).len() == 0 && t1.methods_of(m).len() == 0 by {
                if m < nm {
                    assert(t0.fields_of(m).len() == 0);
                }
            }
            if let Some(pn) = node.inherits {
                let p = crate::processing_step_2::meaning_named(&t0, pn@);
                assert(crate::processing_step_2::has_meaning_named(&t0, pn@));
                assert(t0.is_meaning(p) && t0.meanings@[p as int].name@ == pn@);
            }
            assert(stands_for(&t1, nm, node));
            assert forall|a: int| 0 <= a < nodes.len() && #[trigger] s1[a] is Some implies stands_for(&t1, s1[a].unwrap(), nodes[a]) by {
                if a != i {
                    let m = s0[a].unwrap();
                    assert(stands_for(&t0, m, nodes[a]));
                    assert(t1.meanings@[m as int].name == t0.meanings@[m as int].name);
                    if let Some(p) = t0.parent(m) {
                        assert(t1.meanings@[p as int].name == t0.meanings@[p as int].name);
                    }
                }
            }
            assert forall|a: int, b: int| 0 <= a < b < nodes.len() && #[trigger] s1[a] is Some && #[trigger] s1[b] is Some
                implies s1[a].unwrap() < s1[b].unwrap() by {
                if b == i {
                    assert(stands_for(&t0, s0[a].unwrap(), nodes[a]));
                } else if a == i {
                    assert(s0[b] is None);
                } else {
                }
            }
            assert forall|m: usize| t1.is_meaning(m) implies exists|a: int| 0 <= a < i + 1 && #[trigger] s1[a] == Some(m) by {
                if m == nm {
                    assert(s1[i as int] == Some(m));
                } else {
                    assert(t0.is_meaning(m));
                    let a = choose|a: int| 0 <= a < i && #[trigger] s0[a] == Some(m);
                    assert(s1[a] == s0[a]);
                }
            }
            lemma_rejection_step(h0, h1, nodes, i);
            assert forall|k: int| 0 <= k < h1.diagnostics@.len() implies rejects_one_of(#[trigger] h1.diagnostics@[k], i + 1) by {
                assert(rejects_one_of(h0.diagnostics@[k], i as int));
                let a = choose|a: int| 0 <= a < i && #[trigger] rejects(h0.diagnostics@[k], a as usize);
            }
        },
    }
}

/// Emits the record of meaning `m`: its own fields, and one discriminant
/// variant per direct submeaning.
pub fn define_data(host: &mut SModelHost, m: usize)
    requires
        old(host).table.wf(),
        old(host).table.is_meaning(m),
    ensures
        final(host).table == old(host).table,
        final(host).semantics == old(host).semantics,
        final(host).diagnostics == old(host).diagnostics,
        final(host).output@.len() == old(host).output@.len() + 1,
        final(host).output@.take(old(host).output@.len() as int) == old(host).output@,
        final(host).output@.last() matches Fragment::DataRecord { meaning, fields, variants }
            && meaning == m && fields@ == old(host).table.fields_of(m)
            && variants@ == old(host).table.meanings@[m as int].submeanings@,
{
    let ms = host.table.meanings.get(m);
    let mut fields: Vec<usize> = Vec::new();
    let mut k: usize = 0;
    while k < ms.fields.len()
        invariant
            k <= ms.fields@.len(),
            fields@ == ms.fields@.take(k as int),
        decreases ms.fields@.len() - k,
    {
        fields.push(ms.fields[k]);
        k = k + 1;
        assert(fields@ =~= ms.fields@.take(k as int));
    }
    assert(fields@ =~= ms.fields@);
    let mut variants: Vec<usize> = Vec::new();
    let mut k: usize = 0;
    while k < ms.submeanings.len()
        invariant
            k <= ms.submeanings@.len(),
            variants@ == ms.submeanings@.take(k as int),
        decreases ms.submeanings@.len() - k,
    {
        variants.push(ms.submeanings[k]);
        k = k + 1;
        assert(variants@ =~= ms.submeanings@.take(k as int));
    }
    assert(variants@ =~= ms.submeanings@);
    host.output.push(Fragment::DataRecord { meaning: m, fields, variants });
    assert(host.output@.take(old(host).output@.len() as int) =~= old(host).output@);
}

/// Runs every pass over `nodes`, the declarations of one batch in order.
/// With no declaration there is only that to report. Otherwise:
/// declaration `a` is registered, under its name and with its parent,
/// exactly when it has no `rejection`, which is otherwise reported; each
/// field, method and registered meaning gets the outcome that `generate`
/// states; the output holds fragments of registered meanings only; and where
/// the first declaration became the root, the arena type comes last.
pub fn smodel(nodes: &Vec<Meaning>) -> (host: SModelHost)
    requires
        count_total(nodes@, nodes@.len() as int, false) < usize::MAX,
        count_total(nodes@, nodes@.len() as int, true) < usize::MAX,
    ensures
        host.table.wf(),
        nodes@.len() == 0 ==> host.diagnostics@ == seq![Diagnostic::NoMeanings] && host.output@.len() == 0
            && host.table.meanings@.len() == 0,
        nodes@.len() > 0 ==> {
            let sem = host.semantics.meanings@;
            &&& host.semantics.shaped(nodes@)
            &&& bound_in_order(sem)
            &&& forall|a: int| 0 <= a < nodes@.len() && #[trigger] sem[a] is Some ==> stands_for(&host.table, sem[a].unwrap(), nodes@[a])
            &&& forall|m: usize| host.table.is_meaning(m) ==> exists|a: int| 0 <= a < nodes@.len() && #[trigger] sem[a] == Some(m)
            &&& forall|a: int| 0 <= a < nodes@.len() ==> (#[trigger] sem[a] is None <==> rejection(nodes@, sem, a) is Some)
                && (sem[a] is None ==> host.diagnostics@.contains(rejection(nodes@, sem, a).unwrap()))
            &&& fields_done(&host, nodes@, nodes@.len() as int)
            &&& methods_done(&host, nodes@, nodes@.len() as int)
            &&& layout_done(&host, nodes@, nodes@.len() as int)
            &&& dispatch_done(&host, nodes@, nodes@.len() as int)
            &&& unbound_have_no_methods(&host, nodes@)
            &&& all_bound(host.output@, sem, host.table.meanings@.len() as int)
            &&& nodes@[0].inherits is None ==> sem[0] == Some(0usize) && host.output@.last() == (Fragment::ArenaType { root: 0 })
        },
{
    if nodes.len() == 0 {
        let mut host = SModelHost::new(nodes);
        host.diagnostics.push(Diagnostic::NoMeanings);
        assert(host.diagnostics@ =~= seq![Diagnostic::NoMeanings]);
        return host;
    }
    let mut host = resolve(nodes);
    let ghost h1 = host;
    generate(&mut host, nodes);
    let ghost h2 = host;
    if let Some(root) = host.semantics.meanings[0] {
        host.output.push(Fragment::ArenaType { root });
    }
    proof {
        let sem = host.semantics.meanings@;
        let t = host.table;
        assert(host.output@.take(h2.output@.len() as int) =~= h2.output@);
        assert(host.diagnostics@.take(h2.diagnostics@.len() as int) =~= h2.diagnostics@);
        assert forall|x: int| 0 <= x < nodes@.len() && #[trigger] h2.semantics.meanings@[x] is Some
            implies h2.table.is_meaning(h2.semantics.meanings@[x].unwrap()) by {
            assert(stands_for(&h1.table, sem[x].unwrap(), nodes@[x]));
        }
        lemma_generated_kept(&h2, &host, nodes@);
        assert forall|k: int| 0 <= k < host.output@.len() implies frag_bound(#[trigger] host.output@[k], sem, t.meanings@.len() as int) by {
            if k < h2.output@.len() {
                lemma_prefix_index(h2.output@, host.output@, k);
            } else {
                assert(stands_for(&h1.table, sem[0].unwrap(), nodes@[0]));
            }
        }
        assert forall|a: int| 0 <= a < nodes@.len() && #[trigger] sem[a] is Some implies stands_for(&t, sem[a].unwrap(), nodes@[a]) by {
            let m = sem[a].unwrap();
            assert(stands_for(&h1.table, m, nodes@[a]));
            assert(t.meanings@[m as int].name == h1.table.meanings@[m as int].name);
            if let Some(p) = h1.table.parent(m) {
                assert(t.meanings@[p as int].name == h1.table.meanings@[p as int].name);
                assert(t.meanings@[m as int].inherits == h1.table.meanings@[m as int].inherits);
            }
        }
        assert forall|m: usize| t.is_meaning(m) implies exists|a: int| 0 <= a < nodes@.len() && #[trigger] sem[a] == Some(m) by {
            assert(h1.table.is_meaning(m));
        }
        reveal(rejections_upto);
        assert forall|a: int| 0 <= a < nodes@.len() implies (#[trigger] sem[a] is None <==> rejection(nodes@, sem, a) is Some)
            && (sem[a] is None ==> host.diagnostics@.contains(rejection(nodes@, sem, a).unwrap())) by {
            if sem[a] is None {
                lemma_prefix_contains(h1.diagnostics@, h2.diagnostics@, rejection(nodes@, sem, a).unwrap());
                lemma_prefix_contains(h2.diagnostics@, host.diagnostics@, rejection(nodes@, sem, a).unwrap());
            }
        }
    }
    host
}

} // verus!
