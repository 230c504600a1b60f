use vstd::prelude::*;
use crate::arguments::{argument_diagnostics, argument_names, convert_function_input_to_arguments};
use crate::host::{Diagnostic, Fragment, SModelHost};
use crate::symbol::{lemma_chain_members, lemma_lookup_found, lemma_lookup_frame, MeaningSymbol, MethodSymbol, OverrideEntry, SymbolTable};
use crate::tree::{Delimiter, FnInput, Meaning, MeaningMethod, Token};

verus! {

/// The method pass: registers instance methods, rewrites their `super`
/// calls and fills the override tables.
pub struct ProcessingStep3_8();

/// Every override entry of `t` was made by a meaning no later than `m`.
pub open spec fn overrides_upto(t: &SymbolTable, m: usize) -> bool {
    forall|s: usize, k: int| s < t.methods@.len() && 0 <= k < t.overrides_of(s).len()
        ==> (#[trigger] t.overrides_of(s)[k]).meaning <= m
}

/// `t1` is `t0` with one more method symbol, called `name`, declared last in
/// `m`, with documentation `doc` and an empty override table; where `base` is
/// given, the override table of `base` gains it last. Nothing else changes.
pub open spec fn method_added(t0: &SymbolTable, t1: &SymbolTable, m: usize, name: Seq<char>, doc: Option<String>, base: Option<usize>) -> bool {
    let s = t0.methods@.len();
    &&& t1.methods@.len() == s + 1
    &&& t1.methods@[s as int].name@ == name
    &&& t1.methods@[s as int].defined_in == m
    &&& t1.methods@[s as int].doc == doc
    &&& t1.methods@[s as int].override_logic_mapping@.len() == 0
    &&& forall|k: int| 0 <= k < s && base != Some(k as usize) ==> #[trigger] t1.methods@[k] == t0.methods@[k]
    &&& base matches Some(b) ==> {
        &&& t1.methods@[b as int].name == t0.methods@[b as int].name
        &&& t1.methods@[b as int].defined_in == t0.methods@[b as int].defined_in
        &&& t1.methods@[b as int].doc == t0.methods@[b as int].doc
        &&& t1.overrides_of(b) == t0.overrides_of(b).push(OverrideEntry { meaning: m, method: s as usize })
    }
    &&& t1.fields == t0.fields
    &&& t1.meanings@.len() == t0.meanings@.len()
    &&& forall|k: int| 0 <= k < t0.meanings@.len() && k != m ==> #[trigger] t1.meanings@[k] == t0.meanings@[k]
    &&& t1.meanings@[m as int].name == t0.meanings@[m as int].name
    &&& t1.meanings@[m as int].inherits == t0.meanings@[m as int].inherits
    &&& t1.meanings@[m as int].fields == t0.meanings@[m as int].fields
    &&& t1.meanings@[m as int].submeanings == t0.meanings@[m as int].submeanings
    &&& t1.methods_of(m) == t0.methods_of(m).push(s as usize)
}

pub open spec fn super_keyword() -> Seq<char> {
    seq!['s', 'u', 'p', 'e', 'r']
}

/// The name `n` where `toks[i..]` begins with `super . n (`.
pub open spec fn super_call_name(toks: Seq<Token>, i: int) -> Option<Seq<char>> {
    if 0 <= i && i + 3 < toks.len() && toks[i + 1] == Token::Punct('.')
        && toks[i + 3] == Token::Open(Delimiter::Parenthesis) {
        match (toks[i], toks[i + 2]) {
            (Token::Ident(kw), Token::Ident(n)) => if kw@ == super_keyword() {
                Some(n@)
            } else {
                None
            },
            _ => None,
        }
    } else {
        None
    }
}

/// How many wrapper layers separate meaning `m` from its ancestor `a`.
pub open spec fn layers_between(t: &SymbolTable, m: usize, a: usize) -> usize {
    (t.asc_chain(m).len() - t.asc_chain(a).len()) as usize
}

/// `toks[i..]` with every `super . n (` whose `n` an ancestor of `m` declares
/// replaced by a call of that ancestor's core on the unwrapped receiver.
pub open spec fn rewrite_super(t: &SymbolTable, m: usize, toks: Seq<Token>, i: int) -> Seq<Token>
    decreases toks.len() - i,
{
    if i < 0 || i >= toks.len() {
        Seq::empty()
    } else {
        match super_call_name(toks, i) {
            Some(n) => match t.lookup_in_base(m, n) {
                Some(b) => seq![Token::CoreCall { method: b, layers: layers_between(t, m, t.defined_in(b)) }]
                    + rewrite_super(t, m, toks, i + 4),
                None => seq![toks[i]] + rewrite_super(t, m, toks, i + 1),
            },
            None => seq![toks[i]] + rewrite_super(t, m, toks, i + 1),
        }
    }
}

/// The `super . n (` of `toks[i..]` whose `n` no ancestor of `m` declares.
pub open spec fn super_diagnostics(t: &SymbolTable, m: usize, toks: Seq<Token>, i: int, node: usize, method: usize) -> Seq<Diagnostic>
    decreases toks.len() - i,
{
    if i < 0 || i >= toks.len() {
        Seq::empty()
    } else {
        match super_call_name(toks, i) {
            Some(n) => match t.lookup_in_base(m, n) {
                Some(b) => super_diagnostics(t, m, toks, i + 4, node, method),
                None => seq![Diagnostic::SuperNoMethodInBase { node, method, token: i as usize }]
                    + super_diagnostics(t, m, toks, i + 1, node, method),
            },
            None => super_diagnostics(t, m, toks, i + 1, node, method),
        }
    }
}

pub open spec fn spec_begins_with_no_receiver(inputs: Seq<FnInput>) -> bool {
    inputs.len() == 0 || !(inputs[0] is Receiver)
}

pub open spec fn spec_begins_with_instance_receiver(inputs: Seq<FnInput>) -> bool {
    inputs.len() > 0 && match inputs[0] {
        FnInput::Receiver { has_attributes, is_reference, has_lifetime, is_mutable } =>
            !has_attributes && is_reference && !has_lifetime && !is_mutable,
        _ => false,
    }
}

/// Whether `s` is the keyword `super`.
fn is_super_keyword(s: &String) -> (r: bool)
    ensures
        r == (s@ == super_keyword()),
{
    let v = s.as_str();
    if v.unicode_len() != 5 {
        return false;
    }
    let r = v.get_char(0) == 's' && v.get_char(1) == 'u' && v.get_char(2) == 'p' && v.get_char(3) == 'e'
        && v.get_char(4) == 'r';
    proof {
        if r {
            assert(s@ =~= super_keyword());
        }
    }
    r
}

/// The name `n` where `toks[i..]` begins with `super . n (`.
fn match_super_call(toks: &Vec<Token>, i: usize) -> (r: Option<&String>)
    ensures
        match r {
            Some(n) => super_call_name(toks@, i as int) == Some(n@),
            None => super_call_name(toks@, i as int) is None,
        },
{
    if i >= toks.len() || toks.len() - i <= 3 {
        return None;
    }
    let is_kw = match &toks[i] {
        Token::Ident(kw) => is_super_keyword(kw),
        _ => false,
    };
    if !is_kw {
        return None;
    }
    match &toks[i + 1] {
        Token::Punct(c) => {
            if *c != '.' {
                return None;
            }
        },
        _ => {
            return None;
        },
    }
    match &toks[i + 3] {
        Token::Open(Delimiter::Parenthesis) => {},
        _ => {
            return None;
        },
    }
    match &toks[i + 2] {
        Token::Ident(n) => Some(n),
        _ => None,
    }
}

/// Number of wrapper layers between meaning `m` and its ancestor `a`.
fn count_layers(t: &SymbolTable, m: usize, a: usize) -> (r: usize)
    requires
        t.wf(),
        t.is_meaning(m),
        t.is_meaning(a),
        t.is_ancestor_or_self(a, m),
    ensures
        r == layers_between(t, m, a),
{
    let cm = t.asc_meaning_list(m);
    let ca = t.asc_meaning_list(a);
    proof {
        let j = choose|j: int| 0 <= j < t.asc_chain(m).len() && t.asc_chain(m)[j] == a;
        crate::symbol::lemma_chain_prefix(t, m, j);
    }
    cm.len() - ca.len()
}

/// Appends a new method symbol to `m`, as `method_added` says.
fn register_method(t: &mut SymbolTable, m: usize, name: &String, doc: Option<String>, base: Option<usize>) -> (s: usize)
    requires
        old(t).wf(),
        old(t).is_meaning(m),
        old(t).methods@.len() < usize::MAX,
        !old(t).declares(m, name@),
        overrides_upto(old(t), m),
        base matches Some(b) ==> old(t).lookup_in_base(m, name@) == Some(b),
    ensures
        final(t).wf(),
        overrides_upto(final(t), m),
        s == old(t).methods@.len(),
        method_added(old(t), final(t), m, name@, doc, base),
{
    let ghost t0 = *t;
    proof {
        assert(t0.wf_meaning(m));
        if let Some(b) = base {
            lemma_lookup_found(&t0, t0.parent(m).unwrap(), name@);
        }
    }
    let s = t.methods.allocate(MethodSymbol {
        name: name.clone(),
        defined_in: m,
        doc,
        override_logic_mapping: Vec::new(),
    });
    let mut ms = t.meanings.replace(m, MeaningSymbol {
        name: String::new(),
        inherits: None,
        fields: Vec::new(),
        methods: Vec::new(),
        submeanings: Vec::new(),
    });
    ms.methods.push(s);
    let _ = t.meanings.replace(m, ms);
    if let Some(b) = base {
        let mut bs = t.methods.replace(b, MethodSymbol {
            name: String::new(),
            defined_in: 0,
            doc: None,
            override_logic_mapping: Vec::new(),
        });
        bs.override_logic_mapping.push(OverrideEntry { meaning: m, method: s });
        let _ = t.methods.replace(b, bs);
    }
    proof {
        lemma_method_added_wf(&t0, t, m, name@, doc, base);
    }
    s
}

proof fn lemma_method_added_wf(t0: &SymbolTable, t1: &SymbolTable, m: usize, name: Seq<char>, doc: Option<String>, base: Option<usize>)
    requires
        t0.wf(),
        t0.is_meaning(m),
        t0.methods@.len() < usize::MAX,
        !t0.declares(m, name),
        overrides_upto(t0, m),
        base matches Some(b) ==> t0.lookup_in_base(m, name) == Some(b) && b < t0.methods@.len() && t0.method_name(b) == name,
        method_added(t0, t1, m, name, doc, base),
    ensures
        t1.wf(),
        overrides_upto(t1, m),
{
    let ns = t0.methods@.len();
    assert forall|s: usize| s < ns implies #[trigger] t1.method_name(s) == t0.method_name(s)
        && t1.defined_in(s) == t0.defined_in(s) by {
        if base != Some(s) {
            assert(t1.methods@[s as int] == t0.methods@[s as int]);
        }
    }
    assert forall|s: usize| s < ns && base != Some(s) implies #[trigger] t1.overrides_of(s) == t0.overrides_of(s) by {
        assert(t1.methods@[s as int] == t0.methods@[s as int]);
    }
    assert forall|y: usize| y < t0.meanings@.len() implies #[trigger] t1.parent(y) == t0.parent(y) by {
        if y != m {
            assert(t1.meanings@[y as int] == t0.meanings@[y as int]);
        }
    }
    assert forall|y: usize| y < m implies #[trigger] t1.methods_of(y) == t0.methods_of(y) by {
        assert(t1.meanings@[y as int] == t0.meanings@[y as int]);
    }
    // The lookups above `m` are those of `t0`.
    assert forall|x: usize, nm: Seq<char>| #![trigger t1.lookup_in_base(x, nm)] x <= m && t0.is_meaning(x)
        implies t1.lookup_in_base(x, nm) == t0.lookup_in_base(x, nm) by {
        assert(t0.wf_meaning(x));
        if let Some(p) = t0.parent(x) {
            assert forall|y: usize| y <= p implies #[trigger] t1.parent(y) == t0.parent(y) && t1.methods_of(y) == t0.methods_of(y) by {}
            lemma_lookup_frame(t0, t1, p, nm);
        }
    }
    assert forall|x: usize| x < t1.meanings@.len() implies #[trigger] t1.wf_meaning(x) by {
        assert(t0.wf_meaning(x));
        if x != m {
            assert(t1.meanings@[x as int] == t0.meanings@[x as int]);
            let ms = t0.meanings@[x as int];
            assert forall|k: int| 0 <= k < ms.submeanings@.len() implies #[trigger] ms.submeanings@[k] < t1.meanings@.len()
                && t1.parent(ms.submeanings@[k]) == Some(x) by {}
            assert forall|k: int| 0 <= k < ms.methods@.len() implies #[trigger] ms.methods@[k] < t1.methods@.len()
                && t1.methods@[ms.methods@[k] as int].defined_in == x by {
                assert(t1.defined_in(ms.methods@[k]) == t0.defined_in(ms.methods@[k]));
            }
            assert forall|k1: int, k2: int|
                0 <= k1 < ms.methods@.len() && 0 <= k2 < ms.methods@.len() && k1 != k2
                    implies t1.method_name(ms.methods@[k1]) != t1.method_name(ms.methods@[k2]) by {
                assert(t1.method_name(ms.methods@[k1]) == t0.method_name(ms.methods@[k1]));
                assert(t1.method_name(ms.methods@[k2]) == t0.method_name(ms.methods@[k2]));
            }
        } else {
            let ms0 = t0.meanings@[m as int];
            let ms1 = t1.meanings@[m as int];
            assert forall|k: int| 0 <= k < ms1.submeanings@.len() implies #[trigger] ms1.submeanings@[k] < t1.meanings@.len()
                && t1.parent(ms1.submeanings@[k]) == Some(x) by {}
            assert forall|k: int| 0 <= k < ms1.methods@.len() implies #[trigger] ms1.methods@[k] < t1.methods@.len()
                && t1.methods@[ms1.methods@[k] as int].defined_in == x by {
                if k < ms0.methods@.len() {
                    assert(ms1.methods@[k] == ms0.methods@[k]);
                    assert(t1.defined_in(ms0.methods@[k]) == t0.defined_in(ms0.methods@[k]));
                }
            }
            assert forall|k1: int, k2: int|
                0 <= k1 < ms1.methods@.len() && 0 <= k2 < ms1.methods@.len() && k1 != k2
                    implies t1.method_name(ms1.methods@[k1]) != t1.method_name(ms1.methods@[k2]) by {
                if k1 < ms0.methods@.len() {
                    assert(ms1.methods@[k1] == ms0.methods@[k1]);
                    assert(t1.method_name(ms0.methods@[k1]) == t0.method_name(ms0.methods@[k1]));
                }
                if k2 < ms0.methods@.len() {
                    assert(ms1.methods@[k2] == ms0.methods@[k2]);
                    assert(t1.method_name(ms0.methods@[k2]) == t0.method_name(ms0.methods@[k2]));
                }
                if k1 == ms0.methods@.len() {
                    assert(t0.methods_of(m)[k2] == ms0.methods@[k2]);
                }
                if k2 == ms0.methods@.len() {
                    assert(t0.methods_of(m)[k1] == ms0.methods@[k1]);
                }
            }
        }
    }
    assert forall|m1: usize, m2: usize|
        m1 < t1.meanings@.len() && m2 < t1.meanings@.len() && m1 != m2
            implies #[trigger] t1.meanings@[m1 as int].name@ != #[trigger] t1.meanings@[m2 as int].name@ by {
        if m1 != m {
            assert(t1.meanings@[m1 as int] == t0.meanings@[m1 as int]);
        }
        if m2 != m {
            assert(t1.meanings@[m2 as int] == t0.meanings@[m2 as int]);
        }
    }
    assert forall|s: usize| s < t1.methods@.len() implies #[trigger] t1.wf_method(s) by {
        if s == ns {
            assert(t1.methods_of(m).last() == s);
        } else {
            assert(t0.wf_method(s));
            let d = t0.defined_in(s);
            assert(t0.wf_meaning(d));
            let j = choose|j: int| 0 <= j < t0.methods_of(d).len() && t0.methods_of(d)[j] == s;
            if d == m {
                assert(t1.methods_of(m)[j] == s);
            } else {
                assert(t1.meanings@[d as int] == t0.meanings@[d as int]);
            }
            assert forall|k: int| 0 <= k < t1.overrides_of(s).len() implies t1.wf_override(s, #[trigger] t1.overrides_of(s)[k]) by {
                if k < t0.overrides_of(s).len() {
                    let e = t0.overrides_of(s)[k];
                    assert(t1.overrides_of(s)[k] == e);
                    assert(t0.wf_override(s, e));
                    assert(e.meaning <= m);
                    assert(t1.lookup_in_base(e.meaning, t0.method_name(s)) == t0.lookup_in_base(e.meaning, t0.method_name(s)));
                } else {
                    assert(t1.lookup_in_base(m, name) == t0.lookup_in_base(m, name));
                }
            }
        }
    }
}

/// The documentation that a new method symbol for `mn` gets: its base's
/// where it inherits documentation, else its own.
pub open spec fn method_doc(t: &SymbolTable, m: usize, mn: MeaningMethod) -> Option<String> {
    if mn.inherit_doc {
        t.methods@[t.lookup_in_base(m, mn.name@).unwrap() as int].doc
    } else {
        mn.doc
    }
}

/// The method whose override table a new method symbol for `mn` joins.
pub open spec fn method_base(t: &SymbolTable, m: usize, mn: MeaningMethod) -> Option<usize> {
    if mn.is_override {
        t.lookup_in_base(m, mn.name@)
    } else {
        None
    }
}

/// What is wrong with method declaration `mn` of meaning `m`, which has a
/// receiver: `None` where it can be registered.
pub open spec fn method_error(t: &SymbolTable, m: usize, mn: MeaningMethod, node: usize, method: usize) -> Option<Diagnostic> {
    if !spec_begins_with_instance_receiver(mn.inputs@) {
        Some(Diagnostic::ReceiverShape { node, method })
    } else if t.declares(m, mn.name@) {
        Some(Diagnostic::MethodRedefinition { node, method })
    } else if (mn.is_override || mn.inherit_doc) && t.lookup_in_base(m, mn.name@) is None {
        Some(Diagnostic::NoMethodInBase { node, method })
    } else {
        None
    }
}

/// Copies an optional string.
fn copy_doc(d: &Option<String>) -> (r: Option<String>)
    ensures
        r == *d,
{
    match d {
        Some(s) => Some(s.clone()),
        None => None,
    }
}

impl ProcessingStep3_8 {
    /// Processes method `method` of declaration `node`, of meaning `meaning`.
    /// A method without receiver is emitted as it stands. An instance method
    /// must take exactly `&self`, bear a name that its meaning does not have
    /// yet and, where it overrides or inherits documentation, have a base
    /// method in an ancestor; else the problem is reported and nothing else
    /// happens. Otherwise it becomes a new method symbol, bound to the
    /// declaration and, for an override, entered in its base's override
    /// table; its core is emitted with the arguments that forward its
    /// parameters and its body with `super` calls rewritten.
    pub fn exec(&self, host: &mut SModelHost, nodes: &Vec<Meaning>, node: usize, method: usize, meaning: usize)
        requires
            old(host).table.wf(),
            old(host).table.is_meaning(meaning),
            old(host).table.methods@.len() < usize::MAX,
            overrides_upto(&old(host).table, meaning),
            old(host).semantics.shaped(nodes@),
            node < nodes@.len(),
            method < nodes@[node as int].methods@.len(),
        ensures
            final(host).table.wf(),
            overrides_upto(&final(host).table, meaning),
            final(host).semantics.shaped(nodes@),
            final(host).semantics.meanings == old(host).semantics.meanings,
            ({
                let mn = nodes@[node as int].methods@[method as int];
                let t0 = old(host).table;
                let o = old(host).output@;
                if spec_begins_with_no_receiver(mn.inputs@) {
                    &&& final(host).table == t0
                    &&& final(host).semantics == old(host).semantics
                    &&& final(host).diagnostics == old(host).diagnostics
                    &&& final(host).output@.len() == o.len() + 1
                    &&& final(host).output@.take(o.len() as int) == o
                    &&& final(host).output@.last() matches Fragment::StaticMethod { meaning: a, node: b, method: c }
                        && a == meaning && b == node && c == method
                } else if method_error(&t0, meaning, mn, node, method) is Some {
                    &&& final(host).table == t0
                    &&& final(host).semantics == old(host).semantics
                    &&& final(host).diagnostics@ == old(host).diagnostics@.push(method_error(&t0, meaning, mn, node, method).unwrap())
                    &&& final(host).output == old(host).output
                } else {
                    let s = t0.methods@.len() as usize;
                    let names = argument_names(mn.inputs@.skip(1));
                    &&& method_added(&t0, &final(host).table, meaning, mn.name@, method_doc(&t0, meaning, mn), method_base(&t0, meaning, mn))
                    &&& final(host).semantics.methods@[node as int]@ == old(host).semantics.methods@[node as int]@.update(method as int, Some(s))
                    &&& forall|i: int| 0 <= i < nodes@.len() && i != node ==> #[trigger] final(host).semantics.methods@[i] == old(host).semantics.methods@[i]
                    &&& final(host).diagnostics@ == old(host).diagnostics@
                        + argument_diagnostics(mn.inputs@.skip(1), node, Some(method), 1)
                        + super_diagnostics(&t0, meaning, mn.statements@, 0, node, method)
                    &&& final(host).output@.len() == o.len() + 1
                    &&& final(host).output@.take(o.len() as int) == o
                    &&& final(host).output@.last() matches Fragment::CoreMethod { meaning: a, node: b, method: c, symbol, arguments, body }
                        && a == meaning && b == node && c == method && symbol == s
                        && arguments@.len() == names.len()
                        && (forall|k: int| 0 <= k < names.len() ==> #[trigger] arguments@[k]@ == names[k])
                        && body@ == rewrite_super(&t0, meaning, mn.statements@, 0)
                }
            }),
    {
        let mn = &nodes[node].methods[method];
        if Self::begins_with_no_receiver(&mn.inputs) {
            host.output.push(Fragment::StaticMethod { meaning, node, method });
            assert(host.output@.take(old(host).output@.len() as int) =~= old(host).output@);
            return;
        }
        if !Self::begins_with_instance_receiver(&mn.inputs) {
            host.diagnostics.push(Diagnostic::ReceiverShape { node, method });
            return;
        }
        if host.table.lookup_method(meaning, &mn.name).is_some() {
            host.diagnostics.push(Diagnostic::MethodRedefinition { node, method });
            return;
        }
        let base = host.table.lookup_method_in_base_meaning(meaning, &mn.name);
        if (mn.is_override || mn.inherit_doc) && base.is_none() {
            host.diagnostics.push(Diagnostic::NoMethodInBase { node, method });
            return;
        }
        let ghost t0 = host.table;
        proof {
            assert(t0.wf_meaning(meaning));
            if let Some(b) = base {
                lemma_lookup_found(&t0, t0.parent(meaning).unwrap(), mn.name@);
            }
        }
        let doc = if mn.inherit_doc {
            copy_doc(&host.table.methods.get(base.unwrap()).doc)
        } else {
            copy_doc(&mn.doc)
        };
        let arguments = convert_function_input_to_arguments(&mn.inputs, 1, node, Some(method), &mut host.diagnostics);
        let body = self.process_super_expression(&host.table, meaning, &mn.statements, node, method, &mut host.diagnostics);
        let overridden = if mn.is_override { base } else { None };
        let s = register_method(&mut host.table, meaning, &mn.name, doc, overridden);
        let mut row: Vec<Option<usize>> = Vec::new();
        std::mem::swap(&mut row, &mut host.semantics.methods[node]);
        row.set(method, Some(s));
        std::mem::swap(&mut row, &mut host.semantics.methods[node]);
        host.output.push(Fragment::CoreMethod { meaning, node, method, symbol: s, arguments, body });
        proof {
            assert(host.output@.take(old(host).output@.len() as int) =~= old(host).output@);
            assert forall|i: int| 0 <= i < nodes@.len() implies #[trigger] host.semantics.methods@[i]@.len() == nodes@[i].methods@.len() by {
                if i == node {
                } else {
                    assert(host.semantics.methods@[i] == old(host).semantics.methods@[i]);
                }
            }
        }
    }

    /// Whether the parameter list has no receiver in front.
    pub fn begins_with_no_receiver(inputs: &Vec<FnInput>) -> (r: bool)
        ensures
            r == spec_begins_with_no_receiver(inputs@),
    {
        if inputs.len() == 0 {
            true
        } else {
            match &inputs[0] {
                FnInput::Receiver { .. } => false,
                _ => true,
            }
        }
    }

    /// Whether the parameter list begins with exactly `&self`.
    pub fn begins_with_instance_receiver(inputs: &Vec<FnInput>) -> (r: bool)
        ensures
            r == spec_begins_with_instance_receiver(inputs@),
    {
        if inputs.len() == 0 {
            return false;
        }
        match &inputs[0] {
            FnInput::Receiver { has_attributes, is_reference, has_lifetime, is_mutable } => {
                !*has_attributes && *is_reference && !*has_lifetime && !*is_mutable
            },
            _ => false,
        }
    }

    /// Rewrites every `super . n (` of a body of meaning `m` into a call of
    /// the core of the method `n` that the parent of `m` sees, and reports
    /// those for which there is none.
    pub fn process_super_expression(
        &self,
        t: &SymbolTable,
        m: usize,
        toks: &Vec<Token>,
        node: usize,
        method: usize,
        diagnostics: &mut Vec<Diagnostic>,
    ) -> (r: Vec<Token>)
        requires
            t.wf(),
            t.is_meaning(m),
        ensures
            r@ == rewrite_super(t, m, toks@, 0),
            final(diagnostics)@ == old(diagnostics)@ + super_diagnostics(t, m, toks@, 0, node, method),
    {
        let mut out: Vec<Token> = Vec::new();
        let n = toks.len();
        let mut i: usize = 0;
        assert(old(diagnostics)@ =~= old(diagnostics)@ + Seq::<Diagnostic>::empty());
        while i < n
            invariant
                t.wf(),
                t.is_meaning(m),
                n == toks@.len(),
                i <= n,
                out@ + rewrite_super(t, m, toks@, i as int) == rewrite_super(t, m, toks@, 0),
                diagnostics@ + super_diagnostics(t, m, toks@, i as int, node, method)
                    == old(diagnostics)@ + super_diagnostics(t, m, toks@, 0, node, method),
            decreases n - i,
        {
            let mut step: usize = 1;
            let ghost out0 = out@;
            let ghost diag0 = diagnostics@;
            match match_super_call(toks, i) {
                Some(name) => {
                    match t.lookup_method_in_base_meaning(m, name) {
                        Some(b) => {
                            proof {
                                assert(t.wf_meaning(m));
                                lemma_lookup_found(t, t.parent(m).unwrap(), name@);
                                lemma_chain_members(t, m);
                                let p = t.parent(m).unwrap();
                                let j = choose|j: int| 0 <= j < t.asc_chain(p).len() && t.asc_chain(p)[j] == t.defined_in(b);
                                assert(t.asc_chain(m)[j] == t.defined_in(b));
                            }
                            let d = t.methods.get(b).defined_in;
                            let layers = count_layers(t, m, d);
                            out.push(Token::CoreCall { method: b, layers });
                            step = 4;
                        },
                        None => {
                            diagnostics.push(Diagnostic::SuperNoMethodInBase { node, method, token: i });
                            out.push(toks[i].duplicate());
                        },
                    }
                },
                None => {
                    out.push(toks[i].duplicate());
                },
            }
            proof {
                let rest = rewrite_super(t, m, toks@, i as int);
                assert(out@ + rewrite_super(t, m, toks@, (i + step) as int) =~= out0 + rest) by {
                    assert(rest == seq![out@.last()] + rewrite_super(t, m, toks@, (i + step) as int));
                }
                assert(diagnostics@ + super_diagnostics(t, m, toks@, (i + step) as int, node, method)
                    =~= diag0 + super_diagnostics(t, m, toks@, i as int, node, method)) by {
                    if step == 1 && diagnostics@.len() > diag0.len() {
                        assert(super_diagnostics(t, m, toks@, i as int, node, method) == seq![diagnostics@.last()]
                            + super_diagnostics(t, m, toks@, (i + 1) as int, node, method));
                    }
                }
            }
            i = i + step;
        }
        out
    }
}

/// Tokens in which no `super . n (` begins pass through the rewrite as they are.
proof fn lemma_rewrite_plain(t: &SymbolTable, m: usize, toks: Seq<Token>, k: int, i: int)
    requires
        0 <= k <= i <= toks.len(),
        forall|q: int| k <= q < i ==> #[trigger] super_call_name(toks, q) is None,
    ensures
        rewrite_super(t, m, toks, k) == toks.subrange(k, i) + rewrite_super(t, m, toks, i),
    decreases i - k,
{
    if k < i {
        lemma_rewrite_plain(t, m, toks, k + 1, i);
        assert(toks.subrange(k, i) =~= seq![toks[k]] + toks.subrange(k + 1, i));
    } else {
        assert(toks.subrange(k, i) =~= Seq::<Token>::empty());
    }
}

/// Wherever the first `super . n (` of a body of meaning `m` stands, the
/// tokens before it are kept and it becomes a call of the core of the
/// method `n` that the parent of `m` sees, on the receiver unwrapped once
/// per layer between `m` and that method's meaning; the rest is rewritten
/// in the same way.
pub proof fn lemma_super_call_rewritten(t: &SymbolTable, m: usize, toks: Seq<Token>, i: int)
    requires
        0 <= i,
        super_call_name(toks, i) is Some,
        forall|q: int| 0 <= q < i ==> #[trigger] super_call_name(toks, q) is None,
        t.lookup_in_base(m, super_call_name(toks, i).unwrap()) is Some,
    ensures
        ({
            let b = t.lookup_in_base(m, super_call_name(toks, i).unwrap()).unwrap();
            rewrite_super(t, m, toks, 0) == toks.take(i)
                + seq![Token::CoreCall { method: b, layers: layers_between(t, m, t.defined_in(b)) }]
                + rewrite_super(t, m, toks, i + 4)
        }),
{
    lemma_rewrite_plain(t, m, toks, 0, i);
    assert(toks.subrange(0, i) =~= toks.take(i));
}

} // verus!
