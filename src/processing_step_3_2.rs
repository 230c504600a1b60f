use vstd::prelude::*;
use crate::host::{Diagnostic, Fragment, SModelHost};
use crate::symbol::{lemma_lookup_frame, FieldSymbol, MeaningSymbol, SymbolTable};
use crate::tree::Meaning;

verus! {

/// The field pass: registers a meaning's own fields and emits their accessors.
pub struct ProcessingStep3_2();

/// Meaning `m` already has a field called `name`.
pub open spec fn has_field_named(t: &SymbolTable, m: usize, name: Seq<char>) -> bool {
    exists|k: int| 0 <= k < t.fields_of(m).len() && t.fields@[#[trigger] t.fields_of(m)[k] as int].name@ == name
}

/// `t1` is `t0` with one more field symbol, last in the fields of `m`, and
/// nothing else changed.
pub open spec fn field_added(t0: &SymbolTable, t1: &SymbolTable, m: usize) -> bool {
    let f = t0.fields@.len();
    &&& t1.fields@.len() == f + 1
    &&& t1.fields@.take(f as int) == t0.fields@
    &&& t1.methods@ == t0.methods@
    &&& t1.meanings@.len() == t0.meanings@.len()
    &&& forall|k: int| 0 <= k < t0.meanings@.len() && k != m ==> #[trigger] t1.meanings@[k] == t0.meanings@[k]
    &&& t1.meanings@[m as int].name == t0.meanings@[m as int].name
    &&& t1.meanings@[m as int].inherits == t0.meanings@[m as int].inherits
    &&& t1.meanings@[m as int].methods == t0.meanings@[m as int].methods
    &&& t1.meanings@[m as int].submeanings == t0.meanings@[m as int].submeanings
    &&& t1.meanings@[m as int].fields@ == t0.meanings@[m as int].fields@.push(f as usize)
}

/// Whether meaning `m` already has a field called `name`.
fn find_field(t: &SymbolTable, m: usize, name: &String) -> (r: bool)
    requires
        t.wf(),
        t.is_meaning(m),
    ensures
        r == has_field_named(t, m, name@),
{
    assert(t.wf_meaning(m));
    let fields = &t.meanings.get(m).fields;
    let n = fields.len();
    let mut k: usize = 0;
    while k < n
        invariant
            *fields == t.meanings@[m as int].fields,
            t.wf_meaning(m),
            n == fields@.len(),
            k <= n,
            forall|j: int| 0 <= j < k ==> t.fields@[#[trigger] fields@[j] as int].name@ != name@,
        decreases n - k,
    {
        if t.fields.get(fields[k]).name == *name {
            assert(t.fields_of(m)[k as int] == fields@[k as int]);
            return true;
        }
        k = k + 1;
    }
    false
}

impl ProcessingStep3_2 {
    /// Registers field `field` of declaration `node` in meaning `meaning`.
    /// A second field of the same name is reported as a redefinition and
    /// gets neither a symbol nor accessors. Otherwise the new field symbol
    /// copies the declaration, and its accessors reach it through the
    /// ascending chain of the meaning.
    pub fn exec(&self, host: &mut SModelHost, nodes: &Vec<Meaning>, node: usize, field: usize, meaning: usize)
        requires
            old(host).table.wf(),
            old(host).table.is_meaning(meaning),
            old(host).table.fields@.len() < usize::MAX,
            node < nodes@.len(),
            field < nodes@[node as int].fields@.len(),
        ensures
            final(host).table.wf(),
            final(host).semantics == old(host).semantics,
            ({
                let f = nodes@[node as int].fields@[field as int];
                if has_field_named(&old(host).table, meaning, f.name@) {
                    &&& final(host).diagnostics@ == old(host).diagnostics@.push(
                        Diagnostic::FieldRedefinition { node, field })
                    &&& final(host).table == old(host).table
                    &&& final(host).output == old(host).output
                } else {
                    let id = old(host).table.fields@.len() as usize;
                    &&& final(host).diagnostics == old(host).diagnostics
                    &&& field_added(&old(host).table, &final(host).table, meaning)
                    &&& final(host).table.fields@[id as int].name@ == f.name@
                    &&& final(host).table.fields@[id as int].is_ref == f.is_ref
                    &&& final(host).table.fields@[id as int].field_type@ == f.type_annotation@
                    &&& final(host).table.fields@[id as int].field_init@ == f.default_value@
                    &&& final(host).output@.len() == old(host).output@.len() + 1
                    &&& final(host).output@.take(old(host).output@.len() as int) == old(host).output@
                    &&& final(host).output@.last() matches Fragment::FieldAccessors { meaning: fm, field: ff, path }
                        && fm == meaning && ff == id && path@ == old(host).table.asc_chain(meaning)
                }
            }),
    {
        let f = &nodes[node].fields[field];
        let ghost t0 = host.table;
        if find_field(&host.table, meaning, &f.name) {
            host.diagnostics.push(Diagnostic::FieldRedefinition { node, field });
            return;
        }
        let path = host.table.asc_meaning_list(meaning);
        let id = host.table.fields.allocate(FieldSymbol {
            name: f.name.clone(),
            is_ref: f.is_ref,
            field_type: f.type_annotation.clone(),
            field_init: f.default_value.clone(),
        });
        let mut ms = host.table.meanings.replace(meaning, MeaningSymbol {
            name: String::new(),
            inherits: None,
            fields: Vec::new(),
            methods: Vec::new(),
            submeanings: Vec::new(),
        });
        ms.fields.push(id);
        let _ = host.table.meanings.replace(meaning, ms);
        host.output.push(Fragment::FieldAccessors { meaning, field: id, path });
        proof {
            assert(host.table.fields@.take(t0.fields@.len() as int) =~= t0.fields@);
            lemma_field_added_wf(&t0, &host.table, meaning, f.name@);
            assert(host.output@.take(host.output@.len() - 1) =~= old(host).output@);
        }
    }
}

/// Adding a field of a fresh name to a meaning keeps the table well-formed.
proof fn lemma_field_added_wf(t0: &SymbolTable, t1: &SymbolTable, m: usize, name: Seq<char>)
    requires
        t0.wf(),
        t0.is_meaning(m),
        t0.fields@.len() < usize::MAX,
        field_added(t0, t1, m),
        t1.fields@[t0.fields@.len() as int].name@ == name,
        !has_field_named(t0, m, name),
    ensures
        t1.wf(),
{
    let nf = t0.fields@.len();
    assert forall|y: usize| y < t0.meanings@.len() implies #[trigger] t1.parent(y) == t0.parent(y) && t1.methods_of(y) == t0.methods_of(y) by {
        if y != m {
            assert(t1.meanings@[y as int] == t0.meanings@[y as int]);
        }
    }
    assert forall|x: usize| x < t1.meanings@.len() implies #[trigger] t1.wf_meaning(x) by {
        assert(t0.wf_meaning(x));
        let fs0 = t0.meanings@[x as int].fields@;
        let fs1 = t1.meanings@[x as int].fields@;
        assert forall|k: int| 0 <= k < fs0.len() implies t1.fields@[#[trigger] fs0[k] as int] == t0.fields@[fs0[k] as int] by {
            assert(t1.fields@.take(nf as int)[fs0[k] as int] == t1.fields@[fs0[k] as int]);
        }
        if x != m {
            assert(t1.meanings@[x as int] == t0.meanings@[x as int]);
        } else {
            assert forall|k1: int, k2: int|
                0 <= k1 < fs1.len() && 0 <= k2 < fs1.len() && k1 != k2
                    implies t1.fields@[fs1[k1] as int].name@ != t1.fields@[fs1[k2] as int].name@ by {
                if k1 < fs0.len() && k2 < fs0.len() {
                    assert(fs1[k1] == fs0[k1]);
                    assert(fs1[k2] == fs0[k2]);
                } else if k1 < fs0.len() {
                    assert(fs1[k1] == fs0[k1]);
                    assert(fs1[k2] == nf);
                    assert(t0.fields_of(m)[k1] == fs0[k1]);
                } else {
                    assert(fs1[k2] == fs0[k2]);
                    assert(fs1[k1] == nf);
                    assert(t0.fields_of(m)[k2] == fs0[k2]);
                }
            }
        }
    }
    assert forall|m1: usize, m2: usize|
        m1 < t1.meanings@.len() && m2 < t1.meanings@.len() && m1 != m2
            implies #[trigger] t1.meanings@[m1 as int].name@ != #[trigger] t1.meanings@[m2 as int].name@ by {
        if m1 != m {
            assert(t1.meanings@[m1 as int] == t0.meanings@[m1 as int]);
        }
        if m2 != m {
            assert(t1.meanings@[m2 as int] == t0.meanings@[m2 as int]);
        }
    }
    assert forall|s: usize| s < t1.methods@.len() implies #[trigger] t1.wf_method(s) by {
        assert(t0.wf_method(s));
        let d = t0.defined_in(s);
        assert(t1.methods_of(d) == t0.methods_of(d));
        assert forall|k: int| 0 <= k < t1.overrides_of(s).len() implies t1.wf_override(s, #[trigger] t1.overrides_of(s)[k]) by {
            let e = t0.overrides_of(s)[k];
            assert(t0.wf_override(s, e));
            let p = t0.parent(e.meaning).unwrap();
            assert(t0.wf_meaning(e.meaning));
            lemma_lookup_frame(t0, t1, p, t0.method_name(s));
        }
    }
}

} // verus!
