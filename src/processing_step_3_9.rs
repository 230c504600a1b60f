use vstd::prelude::*;
use crate::arguments::{argument_names, convert_function_input_to_arguments};
use crate::host::{Diagnostic, Fragment, SModelHost};
use crate::symbol::OverrideEntry;
use crate::tree::Meaning;

verus! {

/// The dispatch pass, run once every override table is complete.
pub struct ProcessingStep3_9();

impl ProcessingStep3_9 {
    /// Emits the public entry of method `method` of declaration `node`, if
    /// it was bound to an instance method symbol: the entry lists that
    /// symbol's override table, and forwards the parameters after the
    /// receiver by name. Nothing happens for other declarations.
    pub fn exec(&self, host: &mut SModelHost, nodes: &Vec<Meaning>, node: usize, method: usize)
        requires
            old(host).table.wf(),
            old(host).semantics.shaped(nodes@),
            node < nodes@.len(),
            method < nodes@[node as int].methods@.len(),
        ensures
            final(host).table == old(host).table,
            final(host).semantics == old(host).semantics,
            final(host).diagnostics == old(host).diagnostics,
            match old(host).semantics.methods@[node as int]@[method as int] {
                Some(s) if s < old(host).table.methods@.len() && nodes@[node as int].methods@[method as int].inputs@.len() > 0 => {
                    let names = argument_names(nodes@[node as int].methods@[method as int].inputs@.skip(1));
                    &&& final(host).output@.len() == old(host).output@.len() + 1
                    &&& final(host).output@.take(old(host).output@.len() as int) == old(host).output@
                    &&& final(host).output@.last() matches Fragment::DispatchEntry { meaning: a, node: b, method: c, symbol, arguments, overrides }
                        && a == old(host).table.defined_in(s) && b == node && c == method && symbol == s
                        && overrides@ == old(host).table.overrides_of(s)
                        && arguments@.len() == names.len()
                        && forall|k: int| 0 <= k < names.len() ==> #[trigger] arguments@[k]@ == names[k]
                },
                _ => final(host).output == old(host).output,
            },
    {
        let slot = host.semantics.methods[node][method];
        let s = match slot {
            Some(s) => s,
            None => {
                return;
            },
        };
        if s >= host.table.methods.len() {
            return;
        }
        let mn = &nodes[node].methods[method];
        if mn.inputs.len() == 0 {
            return;
        }
        let mut scratch: Vec<Diagnostic> = Vec::new();
        let arguments = convert_function_input_to_arguments(&mn.inputs, 1, node, Some(method), &mut scratch);
        let sym = host.table.methods.get(s);
        let table = &sym.override_logic_mapping;
        let mut overrides: Vec<OverrideEntry> = Vec::new();
        let n = table.len();
        let mut k: usize = 0;
        while k < n
            invariant
                n == table@.len(),
                k <= n,
                overrides@ == table@.take(k as int),
            decreases n - k,
        {
            overrides.push(table[k]);
            k = k + 1;
            assert(overrides@ =~= table@.take(k as int));
        }
        assert(overrides@ =~= table@);
        host.output.push(Fragment::DispatchEntry {
            meaning: sym.defined_in,
            node,
            method,
            symbol: s,
            arguments,
            overrides,
        });
        assert(host.output@.take(old(host).output@.len() as int) =~= old(host).output@);
    }
}

} // verus!
