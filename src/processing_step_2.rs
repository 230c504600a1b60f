use vstd::prelude::*;
use crate::host::{Diagnostic, SModelHost};
use crate::symbol::{lemma_lookup_frame, MeaningSymbol, SymbolTable};
use crate::tree::Meaning;

verus! {

/// The first pass: registers each meaning in the symbol table and links it
/// to its parent.
pub struct ProcessingStep2();

/// Some meaning of `t` is called `name`.
pub open spec fn has_meaning_named(t: &SymbolTable, name: Seq<char>) -> bool {
    exists|m: usize| t.is_meaning(m) && t.meanings@[m as int].name@ == name
}

/// The meaning of `t` called `name`, where there is one.
pub open spec fn meaning_named(t: &SymbolTable, name: Seq<char>) -> usize {
    choose|m: usize| t.is_meaning(m) && t.meanings@[m as int].name@ == name
}

/// What is wrong with declaration `node`, at position `i`, against the
/// meanings registered so far: `None` where it can be registered.
pub open spec fn resolution_error(t: &SymbolTable, node: Meaning, i: usize) -> Option<Diagnostic> {
    if i == 0 && node.inherits is Some {
        Some(Diagnostic::RootInherits { node: i })
    } else if i > 0 && node.inherits is None {
        Some(Diagnostic::MissingBase { node: i })
    } else if node.inherits matches Some(pn) && !has_meaning_named(t, pn@) {
        Some(Diagnostic::BaseNotFound { node: i })
    } else if has_meaning_named(t, node.name@) {
        Some(Diagnostic::Redefinition { node: i })
    } else {
        None
    }
}

/// The parent that `node` names, resolved in `t`.
pub open spec fn resolved_parent(t: &SymbolTable, node: Meaning) -> Option<usize> {
    match node.inherits {
        Some(pn) => Some(meaning_named(t, pn@)),
        None => None,
    }
}

/// `t1` is `t0` with one more meaning, called `name`, child of `parent`,
/// with no fields, methods or submeanings yet; the parent lists it last
/// among its submeanings.
pub open spec fn meaning_added(t0: &SymbolTable, t1: &SymbolTable, name: Seq<char>, parent: Option<usize>) -> bool {
    let m = t0.meanings@.len();
    &&& t1.meanings@.len() == m + 1
    &&& t1.fields@ == t0.fields@
    &&& t1.methods@ == t0.methods@
    &&& t1.meanings@[m as int].name@ == name
    &&& t1.meanings@[m as int].inherits == parent
    &&& t1.meanings@[m as int].fields@.len() == 0
    &&& t1.meanings@[m as int].methods@.len() == 0
    &&& t1.meanings@[m as int].submeanings@.len() == 0
    &&& forall|k: int| 0 <= k < m && parent != Some(k as usize) ==> #[trigger] t1.meanings@[k] == t0.meanings@[k]
    &&& parent matches Some(p) ==> {
        &&& t1.meanings@[p as int].name == t0.meanings@[p as int].name
        &&& t1.meanings@[p as int].inherits == t0.meanings@[p as int].inherits
        &&& t1.meanings@[p as int].fields == t0.meanings@[p as int].fields
        &&& t1.meanings@[p as int].methods == t0.meanings@[p as int].methods
        &&& t1.meanings@[p as int].submeanings@ == t0.meanings@[p as int].submeanings@.push(m as usize)
    }
}

/// Finds the meaning called `name`; the names of a well-formed table are
/// unique, so this is `meaning_named`.
fn find_named(t: &SymbolTable, name: &String) -> (r: Option<usize>)
    requires
        t.wf(),
    ensures
        r is Some == has_meaning_named(t, name@),
        r matches Some(m) ==> m == meaning_named(t, name@) && t.is_meaning(m),
{
    let r = t.find_meaning(name);
    if let Some(m) = r {
        let ghost c = meaning_named(t, name@);
        assert(t.meanings@[c as int].name@ == name@);
        assert(c == m);
    }
    r
}

impl ProcessingStep2 {
    /// Registers declaration `i`: unless `resolution_error` names a problem,
    /// which is then reported and nothing else changes, a new meaning symbol
    /// is created, linked to its parent and bound to the declaration.
    pub fn exec(&self, host: &mut SModelHost, nodes: &Vec<Meaning>, i: usize)
        requires
            old(host).table.wf(),
            i < nodes@.len(),
            old(host).semantics.meanings@.len() == nodes@.len(),
            old(host).table.meanings@.len() <= i,
        ensures
            final(host).table.wf(),
            final(host).output == old(host).output,
            final(host).semantics.methods == old(host).semantics.methods,
            match resolution_error(&old(host).table, nodes@[i as int], i) {
                Some(d) => {
                    &&& final(host).diagnostics@ == old(host).diagnostics@.push(d)
                    &&& final(host).table == old(host).table
                    &&& final(host).semantics.meanings == old(host).semantics.meanings
                },
                None => {
                    &&& final(host).diagnostics == old(host).diagnostics
                    &&& meaning_added(&old(host).table, &final(host).table, nodes@[i as int].name@,
                        resolved_parent(&old(host).table, nodes@[i as int]))
                    &&& final(host).semantics.meanings@ == old(host).semantics.meanings@.update(
                        i as int, Some(old(host).table.meanings@.len() as usize))
                    &&& final(host).table.asc_chain(old(host).table.meanings@.len() as usize) == match resolved_parent(&old(host).table, nodes@[i as int]) {
                        Some(p) => old(host).table.asc_chain(p).push(old(host).table.meanings@.len() as usize),
                        None => seq![old(host).table.meanings@.len() as usize],
                    }
                },
            },
    {
        let n_nodes = nodes.len();
        let node = &nodes[i];
        if i == 0 && node.inherits.is_some() {
            host.diagnostics.push(Diagnostic::RootInherits { node: i });
            return;
        }
        if i > 0 && node.inherits.is_none() {
            host.diagnostics.push(Diagnostic::MissingBase { node: i });
            return;
        }
        let mut parent: Option<usize> = None;
        if let Some(pn) = &node.inherits {
            match find_named(&host.table, pn) {
                Some(p) => {
                    parent = Some(p);
                },
                None => {
                    host.diagnostics.push(Diagnostic::BaseNotFound { node: i });
                    return;
                },
            }
        }
        if find_named(&host.table, &node.name).is_some() {
            host.diagnostics.push(Diagnostic::Redefinition { node: i });
            return;
        }
        let ghost t0 = host.table;
        let m = host.table.meanings.allocate(MeaningSymbol {
            name: node.name.clone(),
            inherits: parent,
            fields: Vec::new(),
            methods: Vec::new(),
            submeanings: Vec::new(),
        });
        if let Some(p) = parent {
            let mut ps = host.table.meanings.replace(p, MeaningSymbol {
                name: String::new(),
                inherits: None,
                fields: Vec::new(),
                methods: Vec::new(),
                submeanings: Vec::new(),
            });
            ps.submeanings.push(m);
            let _ = host.table.meanings.replace(p, ps);
        }
        host.semantics.meanings.set(i, Some(m));
        proof {
            lemma_meaning_added_wf(&t0, &host.table, node.name@, parent);
            if let Some(p) = parent {
                assert forall|y: usize| y <= p implies #[trigger] host.table.parent(y) == t0.parent(y) by {
                    if y != p {
                        assert(host.table.meanings@[y as int] == t0.meanings@[y as int]);
                    }
                }
                crate::generation::lemma_chain_frame(&t0, &host.table, p);
            }
        }
    }
}

/// Adding a meaning under a registered parent, with a fresh name, keeps the
/// table well-formed.
proof fn lemma_meaning_added_wf(t0: &SymbolTable, t1: &SymbolTable, name: Seq<char>, parent: Option<usize>)
    requires
        t0.wf(),
        t0.meanings@.len() < usize::MAX,
        meaning_added(t0, t1, name, parent),
        parent matches Some(p) ==> t0.is_meaning(p),
        !has_meaning_named(t0, name),
    ensures
        t1.wf(),
{
    let n = t0.meanings@.len();
    assert forall|y: usize| y < n implies #[trigger] t1.parent(y) == t0.parent(y) && t1.methods_of(y) == t0.methods_of(y) by {
        if parent == Some(y) {
        } else {
            assert(t1.meanings@[y as int] == t0.meanings@[y as int]);
        }
    }
    assert forall|m: usize| m < t1.meanings@.len() implies #[trigger] t1.wf_meaning(m) by {
        if m == n {
            assert forall|s: usize| s < t1.meanings@.len() && t1.parent(s) == Some(m) implies
                t1.meanings@[m as int].submeanings@.contains(s) by {
                if s < n {
                    assert(t0.wf_meaning(s));
                    assert(t1.parent(s) == t0.parent(s));
                }
            }
        } else if parent == Some(m) {
            assert(t0.wf_meaning(m));
            let subs0 = t0.meanings@[m as int].submeanings@;
            let subs1 = t1.meanings@[m as int].submeanings@;
            assert forall|k: int| 0 <= k < subs1.len() implies #[trigger] subs1[k] < t1.meanings@.len()
                && t1.parent(subs1[k]) == Some(m) by {
                if k < subs0.len() {
                    assert(subs1[k] == subs0[k]);
                    assert(t1.parent(subs0[k]) == t0.parent(subs0[k]));
                } else {
                    assert(subs1[k] == n);
                    assert(t1.parent(n as usize) == parent);
                }
            }
            assert forall|s: usize| s < t1.meanings@.len() && t1.parent(s) == Some(m) implies subs1.contains(s) by {
                if s == n {
                    assert(subs1[subs1.len() - 1] == s);
                } else {
                    assert(subs0.contains(s));
                    let k = choose|k: int| 0 <= k < subs0.len() && subs0[k] == s;
                    assert(subs1[k] == s);
                }
            }
            assert forall|a: int, b: int| 0 <= a < subs1.len() && 0 <= b < subs1.len() && a != b implies subs1[a] != subs1[b] by {
                if a < subs0.len() && b < subs0.len() {
                } else if a < subs0.len() {
                    assert(subs0[a] < n);
                } else {
                    assert(subs0[b] < n);
                }
            }
        } else {
            assert(t0.wf_meaning(m));
            assert(t1.meanings@[m as int] == t0.meanings@[m as int]);
            let subs = t0.meanings@[m as int].submeanings@;
            assert forall|k: int| 0 <= k < subs.len() implies #[trigger] subs[k] < t1.meanings@.len()
                && t1.parent(subs[k]) == Some(m) by {
                assert(t0.parent(subs[k]) == Some(m));
            }
        }
    }
    assert forall|m1: usize, m2: usize|
        m1 < t1.meanings@.len() && m2 < t1.meanings@.len() && m1 != m2
            implies #[trigger] t1.meanings@[m1 as int].name@ != #[trigger] t1.meanings@[m2 as int].name@ by {
        if m1 < n && m2 < n {
            if parent != Some(m1) {
                assert(t1.meanings@[m1 as int] == t0.meanings@[m1 as int]);
            }
            if parent != Some(m2) {
                assert(t1.meanings@[m2 as int] == t0.meanings@[m2 as int]);
            }
        } else if m1 == n {
            if parent != Some(m2) {
                assert(t1.meanings@[m2 as int] == t0.meanings@[m2 as int]);
            }
            assert(t0.is_meaning(m2));
            assert(t0.meanings@[m2 as int].name@ != name);
        } else {
            if parent != Some(m1) {
                assert(t1.meanings@[m1 as int] == t0.meanings@[m1 as int]);
            }
            assert(t0.is_meaning(m1));
            assert(t0.meanings@[m1 as int].name@ != name);
        }
    }
    assert forall|s: usize| s < t1.methods@.len() implies #[trigger] t1.wf_method(s) by {
        assert(t0.wf_method(s));
        let d = t0.defined_in(s);
        assert(t1.methods_of(d) == t0.methods_of(d));
        assert forall|k: int| 0 <= k < t1.overrides_of(s).len() implies t1.wf_override(s, #[trigger] t1.overrides_of(s)[k]) by {
            let e = t0.overrides_of(s)[k];
            assert(t0.wf_override(s, e));
            let p = t0.parent(e.meaning).unwrap();
            assert(t0.wf_meaning(e.meaning));
            lemma_lookup_frame(t0, t1, p, t0.method_name(s));
        }
    }
}

} // verus!
