use vstd::prelude::*;
use crate::arguments::{argument_diagnostics, argument_names, convert_function_input_to_arguments};
use crate::host::{Fragment, SModelHost};
use crate::tree::{FnInput, Meaning};

verus! {

/// The constructor pass.
pub struct ProcessingStep3_7();

/// The `super(...)` arguments of the constructor of `node`: none where it
/// declares none.
pub open spec fn constructor_super_arguments(node: Meaning) -> Seq<String> {
    match node.constructor {
        Some(c) => c.super_arguments@,
        None => Seq::empty(),
    }
}

/// A copy of a list of strings.
fn copy_strings(v: &Vec<String>) -> (r: Vec<String>)
    ensures
        r@ == v@,
{
    let mut r: Vec<String> = Vec::new();
    let mut k: usize = 0;
    while k < v.len()
        invariant
            k <= v@.len(),
            r@ == v@.take(k as int),
        decreases v@.len() - k,
    {
        r.push(v[k].clone());
        k = k + 1;
        assert(r@ =~= v@.take(k as int));
    }
    assert(r@ =~= v@);
    r
}

/// The parameters of the constructor of `node`: none where it declares none.
pub open spec fn constructor_inputs(node: Meaning) -> Seq<FnInput> {
    match node.constructor {
        Some(c) => c.inputs@,
        None => Seq::empty(),
    }
}

impl ProcessingStep3_7 {
    /// Emits `new` for meaning `meaning`, declared by `node`: it allocates
    /// the layers of the ascending chain of the meaning, calls the parent's
    /// initializer, if there is a parent, with the `super(...)` arguments,
    /// and forwards the constructor's parameters, by name, to its own.
    pub fn exec(&self, host: &mut SModelHost, nodes: &Vec<Meaning>, node: usize, meaning: usize)
        requires
            old(host).table.wf(),
            old(host).table.is_meaning(meaning),
            node < nodes@.len(),
        ensures
            final(host).table == old(host).table,
            final(host).semantics == old(host).semantics,
            final(host).diagnostics@ == old(host).diagnostics@
                + argument_diagnostics(constructor_inputs(nodes@[node as int]), node, None, 0),
            final(host).output@.len() == old(host).output@.len() + 1,
            final(host).output@.take(old(host).output@.len() as int) == old(host).output@,
            ({
                let names = argument_names(constructor_inputs(nodes@[node as int]));
                final(host).output@.last() matches Fragment::Constructor { meaning: a, node: b, chain, parent, super_arguments, arguments }
                    && a == meaning && b == node && chain@ == old(host).table.asc_chain(meaning)
                    && parent == old(host).table.parent(meaning)
                    && super_arguments@ == constructor_super_arguments(nodes@[node as int])
                    && arguments@.len() == names.len()
                    && forall|k: int| 0 <= k < names.len() ==> #[trigger] arguments@[k]@ == names[k]
            }),
    {
        let chain = host.table.asc_meaning_list(meaning);
        let parent = host.table.meanings.get(meaning).inherits;
        let super_arguments = match &nodes[node].constructor {
            Some(c) => copy_strings(&c.super_arguments),
            None => Vec::new(),
        };
        let arguments = match &nodes[node].constructor {
            Some(c) => convert_function_input_to_arguments(&c.inputs, 0, node, None, &mut host.diagnostics),
            None => {
                assert(host.diagnostics@ =~= old(host).diagnostics@
                    + argument_diagnostics(constructor_inputs(nodes@[node as int]), node, None, 0));
                Vec::new()
            },
        };
        proof {
            assert(constructor_inputs(nodes@[node as int]).skip(0) =~= constructor_inputs(nodes@[node as int]));
        }
        host.output.push(Fragment::Constructor { meaning, node, chain, parent, super_arguments, arguments });
        assert(host.output@.take(old(host).output@.len() as int) =~= old(host).output@);
    }
}

} // verus!
