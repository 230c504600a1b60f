use vstd::prelude::*;
use crate::host::Diagnostic;
use crate::tree::FnInput;

verus! {

/// The names under which the parameters `inputs` are passed on, in order:
/// those of the typed parameters whose pattern is an identifier.
pub open spec fn argument_names(inputs: Seq<FnInput>) -> Seq<Seq<char>>
    decreases inputs.len(),
{
    if inputs.len() == 0 {
        Seq::empty()
    } else {
        let rest = argument_names(inputs.drop_last());
        match inputs.last() {
            FnInput::Typed { name: Some(n), .. } => rest.push(n@),
            _ => rest,
        }
    }
}

/// The problems of the parameters `inputs`, which stand at positions
/// `offset`, `offset + 1`, ... of the list of `method` of declaration `node`:
/// a receiver, and a pattern that is not an identifier.
pub open spec fn argument_diagnostics(inputs: Seq<FnInput>, node: usize, method: Option<usize>, offset: int) -> Seq<Diagnostic>
    decreases inputs.len(),
{
    if inputs.len() == 0 {
        Seq::empty()
    } else {
        let rest = argument_diagnostics(inputs.drop_last(), node, method, offset);
        let input = (offset + inputs.len() - 1) as usize;
        match inputs.last() {
            FnInput::Receiver { .. } => rest.push(Diagnostic::UnexpectedReceiver { node, method, input }),
            FnInput::Typed { name: None, .. } => rest.push(Diagnostic::PatternNotIdent { node, method, input }),
            FnInput::Typed { name: Some(_), .. } => rest,
        }
    }
}

/// The argument list that forwards the parameters `inputs[start..]`: the
/// name of each one, in order. A receiver, or a pattern that is not an
/// identifier, is reported and left out.
pub fn convert_function_input_to_arguments(
    inputs: &Vec<FnInput>,
    start: usize,
    node: usize,
    method: Option<usize>,
    diagnostics: &mut Vec<Diagnostic>,
) -> (r: Vec<String>)
    requires
        start <= inputs@.len(),
    ensures
        r@.len() == argument_names(inputs@.skip(start as int)).len(),
        forall|k: int| 0 <= k < r@.len() ==> #[trigger] r@[k]@ == argument_names(inputs@.skip(start as int))[k],
        final(diagnostics)@ == old(diagnostics)@ + argument_diagnostics(inputs@.skip(start as int), node, method, start as int),
{
    let mut r: Vec<String> = Vec::new();
    let n = inputs.len();
    let mut i: usize = start;
    assert(inputs@.subrange(start as int, start as int) =~= Seq::<FnInput>::empty());
    assert(old(diagnostics)@ + Seq::<Diagnostic>::empty() =~= old(diagnostics)@);
    while i < n
        invariant
            n == inputs@.len(),
            start <= i <= n,
            r@.len() == argument_names(inputs@.subrange(start as int, i as int)).len(),
            forall|k: int| 0 <= k < r@.len() ==> #[trigger] r@[k]@ == argument_names(inputs@.subrange(start as int, i as int))[k],
            diagnostics@ == old(diagnostics)@ + argument_diagnostics(inputs@.subrange(start as int, i as int), node, method, start as int),
        decreases n - i,
    {
        let ghost before = inputs@.subrange(start as int, i as int);
        let ghost after = inputs@.subrange(start as int, i + 1);
        assert(after.drop_last() =~= before);
        assert(after.last() == inputs@[i as int]);
        let ghost d0 = diagnostics@;
        match &inputs[i] {
            FnInput::Receiver { .. } => {
                diagnostics.push(Diagnostic::UnexpectedReceiver { node, method, input: i });
                assert(diagnostics@ =~= old(diagnostics)@ + argument_diagnostics(after, node, method, start as int));
            },
            FnInput::Typed { name: None, .. } => {
                diagnostics.push(Diagnostic::PatternNotIdent { node, method, input: i });
                assert(diagnostics@ =~= old(diagnostics)@ + argument_diagnostics(after, node, method, start as int));
            },
            FnInput::Typed { name: Some(id), .. } => {
                r.push(id.clone());
            },
        }
        i = i + 1;
    }
    assert(inputs@.subrange(start as int, n as int) =~= inputs@.skip(start as int));
    r
}

} // verus!
