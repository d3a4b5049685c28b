//! The machine core: symbol registry, flattened transition table, and the
//! stepping engine.

use vstd::prelude::*;
use vstd::pervasive::VecAdditionalExecFns;

use crate::State;
use crate::Transition;

verus! {

/// Dense index of a state, assigned in first-declaration order.
#[derive(Copy, Clone, PartialEq, Eq, Structural, Debug)]
pub struct StateIndex(pub u32);

/// Index of a transition's slot in the lock-step transition arrays.
#[derive(Copy, Clone, PartialEq, Eq, Structural, Debug)]
pub struct TransitionIndex(pub u32);

/// Dense index of an input symbol; the empty symbol is always index 0.
#[derive(Copy, Clone, PartialEq, Eq, Structural, Debug)]
pub struct SymbolIndex(pub u32);

/// Index of a callback in the caller's action pool. The machine never runs
/// callbacks itself: `step` reports which indices fire, in order.
#[derive(Copy, Clone, PartialEq, Eq, Structural, Debug)]
pub struct CallbackIndex(pub u32);

/// An operation referenced a name or symbol that was never declared.
#[derive(Copy, Clone, PartialEq, Eq, Structural, Debug)]
pub enum MachineError {
    /// A transition or initial-state declaration names an undeclared state.
    UnknownState,
    /// A symbol passed to `step` was not used by any transition declaration.
    UnknownSymbol,
}

/// The view of a symbol value: `None` is the empty symbol, a string is its
/// character sequence.
pub open spec fn sym_view(s: Option<String>) -> Option<Seq<char>> {
    match s {
        Option::None => Option::None,
        Option::Some(x) => Option::Some(x@),
    }
}

/// Row-major pair indices stay inside the table.
proof fn lemma_pair_bound(ns: int, k: int, s: int, y: int)
    requires
        0 <= s < ns,
        0 <= y < k,
    ensures
        0 <= s * k + y < ns * k,
{
    assert(s * k + y < ns * k) by (nonlinear_arith)
        requires
            0 <= s < ns,
            0 <= y < k,
    ;
}

/// Distinct (state, symbol) pairs have distinct row-major indices.
proof fn lemma_pair_injective(k: int, s1: int, y1: int, s2: int, y2: int)
    requires
        0 <= s1,
        0 <= s2,
        0 <= y1 < k,
        0 <= y2 < k,
        (s1, y1) != (s2, y2),
    ensures
        s1 * k + y1 != s2 * k + y2,
{
    assert(s1 * k + y1 != s2 * k + y2) by (nonlinear_arith)
        requires
            0 <= s1,
            0 <= s2,
            0 <= y1 < k,
            0 <= y2 < k,
            s1 != s2 || y1 != y2,
    ;
}

/// The names of the declared states, in declaration order.
pub open spec fn state_names(states: Seq<State>) -> Seq<Seq<char>> {
    states.map_values(|st: State| st.name@)
}

/// The index of the first occurrence of `x` in `s` (meaningful when `s`
/// contains `x`).
pub open spec fn index_of_first<T>(s: Seq<T>, x: T) -> int
    decreases s.len(),
{
    if s.len() == 0 {
        0
    } else if s[0] == x {
        0
    } else {
        1 + index_of_first(s.drop_first(), x)
    }
}

/// A first match found by a left-to-right scan is `index_of_first`.
proof fn lemma_index_of_first_found<T>(s: Seq<T>, x: T, i: int)
    requires
        0 <= i < s.len(),
        s[i] == x,
        forall|j: int| 0 <= j < i ==> s[j] != x,
    ensures
        index_of_first(s, x) == i,
    decreases i,
{
    if i == 0 {
        assert(s[0] == x);
    } else {
        assert(s[0] != x);
        assert(s.drop_first()[i - 1] == x);
        assert(forall|j: int| 0 <= j < i - 1 ==> s.drop_first()[j] != x);
        lemma_index_of_first_found(s.drop_first(), x, i - 1);
    }
}

/// The symbol table interned from the transition declarations: the empty
/// symbol first, then each distinct symbol in first-appearance order.
pub open spec fn interned_symbols(transs: Seq<Transition>) -> Seq<Option<Seq<char>>>
    decreases transs.len(),
{
    if transs.len() == 0 {
        seq![Option::<Seq<char>>::None]
    } else {
        let prev = interned_symbols(transs.drop_last());
        let v = sym_view(transs.last().symbol);
        if prev.contains(v) {
            prev
        } else {
            prev.push(v)
        }
    }
}

/// The interned table is nonempty, starts with the empty symbol, has no
/// duplicates, and holds at most one entry per declaration plus one.
proof fn lemma_interned_wf(transs: Seq<Transition>)
    ensures
        1 <= interned_symbols(transs).len() <= transs.len() + 1,
        interned_symbols(transs)[0] is None,
        forall|i: int, j: int|
            0 <= i < j < interned_symbols(transs).len() ==> #[trigger] interned_symbols(transs)[i]
                != #[trigger] interned_symbols(transs)[j],
    decreases transs.len(),
{
    if transs.len() > 0 {
        lemma_interned_wf(transs.drop_last());
        let prev = interned_symbols(transs.drop_last());
        let v = sym_view(transs.last().symbol);
        if !prev.contains(v) {
            assert forall|i: int, j: int|
                0 <= i < j < interned_symbols(transs).len() implies #[trigger] interned_symbols(
                transs,
            )[i] != #[trigger] interned_symbols(transs)[j] by {
                if j == prev.len() {
                    assert(!prev.contains(v));
                    assert(prev[i] != v);
                }
            }
        }
    }
}

/// Every declaration's symbol is in the interned table.
proof fn lemma_interned_contains(transs: Seq<Transition>, i: int)
    requires
        0 <= i < transs.len(),
    ensures
        interned_symbols(transs).contains(sym_view(transs[i].symbol)),
    decreases transs.len(),
{
    let prev = interned_symbols(transs.drop_last());
    let v = sym_view(transs.last().symbol);
    if i == transs.len() - 1 {
        if prev.contains(v) {
            assert(interned_symbols(transs).contains(v));
        } else {
            assert(interned_symbols(transs)[prev.len() as int] == v);
        }
    } else {
        lemma_interned_contains(transs.drop_last(), i);
        let w = sym_view(transs[i].symbol);
        let wi = choose|q: int| 0 <= q < prev.len() && prev[q] == w;
        if prev.contains(v) {
            assert(interned_symbols(transs)[wi] == w);
        } else {
            assert(interned_symbols(transs)[wi] == w);
        }
    }
}

/// One transition declaration, resolved to dense indices: from-state,
/// symbol, output callback, destination state.
pub open spec fn resolved_decl(
    names: Seq<Seq<char>>,
    syms: Seq<Option<Seq<char>>>,
    t: Transition,
) -> (int, int, CallbackIndex, StateIndex) {
    (
        index_of_first(names, t.previous_state@),
        index_of_first(syms, sym_view(t.symbol)),
        t.output,
        StateIndex(index_of_first(names, t.following_state@) as u32),
    )
}

/// All transition declarations, resolved against the declared states and
/// the interned symbol table.
pub open spec fn resolved_decls(states: Seq<State>, transs: Seq<Transition>) -> Seq<
    (int, int, CallbackIndex, StateIndex),
> {
    transs.map_values(|t: Transition| resolved_decl(state_names(states), interned_symbols(transs), t))
}

/// Every state name the transition declarations reference was declared.
pub open spec fn transitions_resolvable(states: Seq<State>, transs: Seq<Transition>) -> bool {
    forall|i: int|
        0 <= i < transs.len() ==> state_names(states).contains(
            (#[trigger] transs[i]).previous_state@,
        ) && state_names(states).contains(transs[i].following_state@)
}

/// Every name in the initial configuration was declared.
pub open spec fn initial_resolvable(states: Seq<State>, initial: Seq<String>) -> bool {
    forall|i: int|
        0 <= i < initial.len() ==> state_names(states).contains((#[trigger] initial[i])@)
}

/// Every state name a declaration or the initial configuration references
/// was declared.
pub open spec fn resolvable(
    states: Seq<State>,
    transs: Seq<Transition>,
    initial: Seq<String>,
) -> bool {
    &&& transitions_resolvable(states, transs)
    &&& initial_resolvable(states, initial)
}

/// The output callbacks of the declarations for pair (`s`, `y`), in
/// declaration order.
pub open spec fn decl_outputs(
    ds: Seq<(int, int, CallbackIndex, StateIndex)>,
    s: int,
    y: int,
) -> Seq<CallbackIndex>
    decreases ds.len(),
{
    if ds.len() == 0 {
        Seq::empty()
    } else {
        let prev = decl_outputs(ds.drop_last(), s, y);
        if ds.last().0 == s && ds.last().1 == y {
            prev.push(ds.last().2)
        } else {
            prev
        }
    }
}

/// The destination states of the declarations for pair (`s`, `y`), in
/// declaration order.
pub open spec fn decl_dests(
    ds: Seq<(int, int, CallbackIndex, StateIndex)>,
    s: int,
    y: int,
) -> Seq<StateIndex>
    decreases ds.len(),
{
    if ds.len() == 0 {
        Seq::empty()
    } else {
        let prev = decl_dests(ds.drop_last(), s, y);
        if ds.last().0 == s && ds.last().1 == y {
            prev.push(ds.last().3)
        } else {
            prev
        }
    }
}

/// Multiplying by a larger factor cannot shrink a nonnegative product.
proof fn lemma_mul_le(a: int, b1: int, b2: int)
    requires
        0 <= a,
        0 <= b1 <= b2,
    ensures
        a * b1 <= a * b2,
{
    assert(a * b1 <= a * b2) by (nonlinear_arith)
        requires
            0 <= a,
            0 <= b1 <= b2,
    ;
}

/// The four lock-step vectors hold exactly the resolved declarations.
pub open spec fn decls_match(
    ds: Seq<(int, int, CallbackIndex, StateIndex)>,
    from: Seq<u32>,
    sym: Seq<u32>,
    out: Seq<CallbackIndex>,
    to: Seq<StateIndex>,
) -> bool {
    &&& from.len() == ds.len()
    &&& sym.len() == ds.len()
    &&& out.len() == ds.len()
    &&& to.len() == ds.len()
    &&& forall|q: int|
        0 <= q < ds.len() ==> {
            &&& ((#[trigger] from[q]) as int) == ds[q].0
            &&& (sym[q] as int) == ds[q].1
            &&& out[q] == ds[q].2
            &&& to[q] == ds[q].3
        }
}

/// Every declaration of a (state, symbol) pair contributes its
/// destination to that pair's destination sequence: two declarations on
/// the same symbol to different destinations both appear in the next
/// active-state set, with no implicit merging.
pub proof fn lemma_declared_dest_appears(
    ds: Seq<(int, int, CallbackIndex, StateIndex)>,
    s: int,
    y: int,
    j: int,
)
    requires
        0 <= j < ds.len(),
        ds[j].0 == s,
        ds[j].1 == y,
    ensures
        decl_dests(ds, s, y).contains(ds[j].3),
    decreases ds.len(),
{
    if j == ds.len() - 1 {
        let res = decl_dests(ds, s, y);
        assert(res.last() == ds[j].3);
        assert(res[res.len() - 1] == ds[j].3);
    } else {
        lemma_declared_dest_appears(ds.drop_last(), s, y, j);
        assert(ds.drop_last()[j] == ds[j]);
        let prev = decl_dests(ds.drop_last(), s, y);
        let q = choose|q: int| 0 <= q < prev.len() && prev[q] == ds[j].3;
        assert(decl_dests(ds, s, y)[q] == ds[j].3);
    }
}

/// Each resolved index is in range for `ns` states and `k` symbols.
pub open spec fn decls_valid(
    ds: Seq<(int, int, CallbackIndex, StateIndex)>,
    ns: int,
    k: int,
) -> bool {
    forall|i: int|
        0 <= i < ds.len() ==> {
            let d = #[trigger] ds[i];
            &&& 0 <= d.0 < ns
            &&& 0 <= d.1 < k
            &&& 0 <= d.3.0 < ns
        }
}

/// The two per-pair sequences have one entry per matching declaration.
proof fn lemma_decl_lens(ds: Seq<(int, int, CallbackIndex, StateIndex)>, s: int, y: int)
    ensures
        decl_dests(ds, s, y).len() == decl_outputs(ds, s, y).len(),
        decl_outputs(ds, s, y).len() <= ds.len(),
    decreases ds.len(),
{
    if ds.len() > 0 {
        lemma_decl_lens(ds.drop_last(), s, y);
    }
}

/// Number of declarations whose row-major pair index is below `p`.
spec fn n_decls_before(ds: Seq<(int, int, CallbackIndex, StateIndex)>, k: int, p: int) -> int
    decreases ds.len(),
{
    if ds.len() == 0 {
        0
    } else {
        n_decls_before(ds.drop_last(), k, p) + if ds.last().0 * k + ds.last().1 < p {
            1int
        } else {
            0int
        }
    }
}

/// `n_decls_before` counts at most every declaration.
proof fn lemma_decls_before_le(ds: Seq<(int, int, CallbackIndex, StateIndex)>, k: int, p: int)
    ensures
        0 <= n_decls_before(ds, k, p) <= ds.len(),
    decreases ds.len(),
{
    if ds.len() > 0 {
        lemma_decls_before_le(ds.drop_last(), k, p);
    }
}

/// Raising the bound by one pair adds exactly that pair's declarations.
proof fn lemma_decls_before_step(
    ds: Seq<(int, int, CallbackIndex, StateIndex)>,
    k: int,
    s: int,
    y: int,
)
    requires
        forall|i: int|
            0 <= i < ds.len() ==> 0 <= (#[trigger] ds[i]).0 && 0 <= ds[i].1 < k,
        0 <= y < k,
        0 <= s,
    ensures
        n_decls_before(ds, k, s * k + y + 1) == n_decls_before(ds, k, s * k + y) + decl_outputs(
            ds,
            s,
            y,
        ).len(),
    decreases ds.len(),
{
    if ds.len() > 0 {
        lemma_decls_before_step(ds.drop_last(), k, s, y);
        let d = ds.last();
        let p = s * k + y;
        if d.0 == s && d.1 == y {
            assert(d.0 * k + d.1 == p);
        } else {
            lemma_pair_injective(k, d.0, d.1, s, y);
            assert(d.0 * k + d.1 != p);
            if d.0 * k + d.1 < p + 1 {
                assert(d.0 * k + d.1 < p);
            }
        }
    }
}

/// With every pair index below `p`, all declarations are counted.
proof fn lemma_decls_before_all(
    ds: Seq<(int, int, CallbackIndex, StateIndex)>,
    ns: int,
    k: int,
    p: int,
)
    requires
        decls_valid(ds, ns, k),
        ns * k <= p,
    ensures
        n_decls_before(ds, k, p) == ds.len(),
    decreases ds.len(),
{
    if ds.len() > 0 {
        assert(decls_valid(ds.drop_last(), ns, k)) by {
            assert(forall|i: int|
                0 <= i < ds.len() - 1 ==> ds.drop_last()[i] == #[trigger] ds[i]);
        }
        lemma_decls_before_all(ds.drop_last(), ns, k, p);
        let d = ds.last();
        lemma_pair_bound(ns, k, d.0, d.1);
    }
}

/// The row-major index of the (state, symbol) pair in a table of `k`
/// symbols per state.
pub open spec fn pair_of(k: int, s: int, y: int) -> int {
    s * k + y
}

/// With a nonnegative bound, no declaration's pair index lies below zero.
proof fn lemma_decls_before_zero(ds: Seq<(int, int, CallbackIndex, StateIndex)>, k: int, p: int)
    requires
        forall|i: int| 0 <= i < ds.len() ==> 0 <= (#[trigger] ds[i]).0 && 0 <= ds[i].1,
        k >= 1,
        p <= 0,
    ensures
        n_decls_before(ds, k, p) == 0,
    decreases ds.len(),
{
    if ds.len() > 0 {
        lemma_decls_before_zero(ds.drop_last(), k, p);
        let d = ds.last();
        assert(d.0 * k + d.1 >= 0) by (nonlinear_arith)
            requires
                d.0 >= 0,
                d.1 >= 0,
                k >= 1,
        ;
    }
}

/// A prefix of the declarations yields a no-longer per-pair sequence, and
/// strictly shorter once a matching declaration lies past the prefix.
proof fn lemma_decl_outputs_take(
    ds: Seq<(int, int, CallbackIndex, StateIndex)>,
    j: int,
    s: int,
    y: int,
)
    requires
        0 <= j <= ds.len(),
    ensures
        decl_outputs(ds.take(j), s, y).len() <= decl_outputs(ds, s, y).len(),
        j < ds.len() && ds[j].0 == s && ds[j].1 == y ==> decl_outputs(ds.take(j), s, y).len()
            < decl_outputs(ds, s, y).len(),
    decreases ds.len(),
{
    if j == ds.len() {
        assert(ds.take(j) =~= ds);
    } else {
        assert(ds.take(ds.len() - 1) =~= ds.drop_last());
        assert(ds.drop_last().take(j) =~= ds.take(j));
        lemma_decl_outputs_take(ds.drop_last(), j, s, y);
        if j < ds.len() - 1 {
            assert(ds.drop_last()[j] == ds[j]);
        }
    }
}
fn symbol_eq(a: &Option<String>, b: &Option<String>) -> (r: bool)
    ensures
        r == (sym_view(*a) == sym_view(*b)),
{
    match (a, b) {
        (Option::None, Option::None) => true,
        (Option::Some(x), Option::Some(y)) => *x == *y,
        _ => false,
    }
}

/// Copies a symbol value.
fn clone_symbol(x: &Option<String>) -> (r: Option<String>)
    ensures
        sym_view(r) == sym_view(*x),
{
    match x {
        Option::None => Option::None,
        Option::Some(s) => Option::Some(s.clone()),
    }
}

/// Whether the symbol table already holds a symbol with this view.
fn contains_symbol(symbols: &Vec<Option<String>>, x: &Option<String>) -> (r: bool)
    ensures
        r == exists|k: int|
            0 <= k < symbols@.len() && sym_view(#[trigger] symbols@[k]) == sym_view(*x),
{
    let len = symbols.len();
    let mut i: usize = 0;
    while i < len
        invariant
            0 <= i <= len,
            len == symbols@.len(),
            forall|j: int| 0 <= j < i ==> sym_view(#[trigger] symbols@[j]) != sym_view(*x),
        decreases len - i,
    {
        if symbol_eq(&symbols[i], x) {
            return true;
        }
        i = i + 1;
    }
    false
}

/// The index of a symbol known to be in the table: the first slot whose
/// view matches.
fn lookup_symbol_index(symbols: &Vec<Option<String>>, x: &Option<String>) -> (r: usize)
    requires
        exists|k: int| 0 <= k < symbols@.len() && sym_view(#[trigger] symbols@[k]) == sym_view(*x),
    ensures
        r < symbols@.len(),
        sym_view(symbols@[r as int]) == sym_view(*x),
        forall|j: int| 0 <= j < r ==> sym_view(#[trigger] symbols@[j]) != sym_view(*x),
{
    let len = symbols.len();
    let mut i: usize = 0;
    while i < len
        invariant
            0 <= i <= len,
            len == symbols@.len(),
            exists|k: int|
                0 <= k < symbols@.len() && sym_view(#[trigger] symbols@[k]) == sym_view(*x),
            forall|j: int| 0 <= j < i ==> sym_view(#[trigger] symbols@[j]) != sym_view(*x),
        decreases len - i,
    {
        if symbol_eq(&symbols[i], x) {
            return i;
        }
        i = i + 1;
    }
    proof {
        // The precondition puts the symbol in the table, so the scan
        // cannot fall through.
        assert(false);
    }
    0
}

/// The index of the first occurrence of name `n` in the registry, if any.
fn lookup_name(names: &Vec<String>, n: &String) -> (r: Option<usize>)
    ensures
        match r {
            Option::Some(ix) => {
                &&& (ix as int) < names@.len()
                &&& names@[ix as int]@ == n@
                &&& forall|j: int| 0 <= j < ix ==> (#[trigger] names@[j])@ != n@
            },
            Option::None => forall|j: int| 0 <= j < names@.len() ==> (#[trigger] names@[j])@ != n@,
        },
{
    let len = names.len();
    let mut i: usize = 0;
    while i < len
        invariant
            0 <= i <= len,
            len == names@.len(),
            forall|j: int| 0 <= j < i ==> (#[trigger] names@[j])@ != n@,
        decreases len - i,
    {
        if *(&names[i]) == *n {
            return Option::Some(i);
        }
        i = i + 1;
    }
    Option::None
}

/// Builds the name registry and the per-state callback arrays, in
/// declaration order.
fn build_registry(states: &Vec<State>) -> (r: (Vec<String>, Vec<CallbackIndex>, Vec<CallbackIndex>))
    ensures
        r.0@.len() == states@.len(),
        forall|i: int| 0 <= i < states@.len() ==> (#[trigger] r.0@[i])@ == state_names(states@)[i],
        r.1@ == states@.map_values(|st: State| st.on_enter),
        r.2@ == states@.map_values(|st: State| st.on_exit),
{
    let n = states.len();
    let mut names: Vec<String> = Vec::new();
    let mut on_enter: Vec<CallbackIndex> = Vec::new();
    let mut on_exit: Vec<CallbackIndex> = Vec::new();
    let mut i: usize = 0;
    while i < n
        invariant
            0 <= i <= n,
            n == states@.len(),
            names@.len() == i,
            on_enter@.len() == i,
            on_exit@.len() == i,
            forall|k: int| 0 <= k < i ==> (#[trigger] names@[k])@ == state_names(states@)[k],
            forall|k: int| 0 <= k < i ==> #[trigger] on_enter@[k] == states@[k].on_enter,
            forall|k: int| 0 <= k < i ==> #[trigger] on_exit@[k] == states@[k].on_exit,
        decreases n - i,
    {
        let st = &states[i];
        names.push(st.name.clone());
        on_enter.push(st.on_enter);
        on_exit.push(st.on_exit);
        i = i + 1;
    }
    proof {
        assert(on_enter@ =~= states@.map_values(|st: State| st.on_enter));
        assert(on_exit@ =~= states@.map_values(|st: State| st.on_exit));
    }
    (names, on_enter, on_exit)
}

/// Interns the empty symbol, then each distinct transition symbol in
/// first-appearance order.
fn intern_symbols(transitions: &Vec<Transition>) -> (symbols: Vec<Option<String>>)
    ensures
        symbols@.len() == interned_symbols(transitions@).len(),
        forall|i: int|
            0 <= i < symbols@.len() ==> sym_view(#[trigger] symbols@[i]) == interned_symbols(
                transitions@,
            )[i],
{
    let n = transitions.len();
    let mut symbols: Vec<Option<String>> = Vec::new();
    symbols.push(Option::None);
    proof {
        assert(transitions@.take(0) =~= Seq::<Transition>::empty());
        assert(interned_symbols(transitions@.take(0)) =~= seq![Option::<Seq<char>>::None]);
    }
    let mut i: usize = 0;
    while i < n
        invariant
            0 <= i <= n,
            n == transitions@.len(),
            symbols@.len() == interned_symbols(transitions@.take(i as int)).len(),
            forall|k: int|
                0 <= k < symbols@.len() ==> sym_view(#[trigger] symbols@[k]) == interned_symbols(
                    transitions@.take(i as int),
                )[k],
        decreases n - i,
    {
        let t = &transitions[i];
        let ghost prev = interned_symbols(transitions@.take(i as int));
        let ghost v = sym_view(transitions@[i as int].symbol);
        let present = contains_symbol(&symbols, &t.symbol);
        proof {
            assert(transitions@.take(i + 1).drop_last() =~= transitions@.take(i as int));
            assert(transitions@.take(i + 1).last() == transitions@[i as int]);
            if present {
                let k = choose|k: int|
                    0 <= k < symbols@.len() && sym_view(#[trigger] symbols@[k]) == v;
                assert(prev[k] == v);
                assert(prev.contains(v));
            } else {
                if prev.contains(v) {
                    let k = choose|k: int| 0 <= k < prev.len() && prev[k] == v;
                    assert(sym_view(symbols@[k]) == v);
                }
            }
        }
        if !present {
            symbols.push(clone_symbol(&t.symbol));
        }
        i = i + 1;
    }
    proof {
        assert(transitions@.take(n as int) =~= transitions@);
    }
    symbols
}

/// Resolves every transition declaration to dense indices: from-state,
/// symbol, output callback, destination, in declaration order. Fails with
/// `UnknownState` exactly when a referenced state name was never declared.
#[verifier::rlimit(60)]
fn resolve_transitions(
    names: &Vec<String>,
    symbols: &Vec<Option<String>>,
    transitions: &Vec<Transition>,
    Ghost(states): Ghost<Seq<State>>,
) -> (r: Result<(Vec<u32>, Vec<u32>, Vec<CallbackIndex>, Vec<StateIndex>), MachineError>)
    requires
        names@.len() == state_names(states).len(),
        forall|i: int| 0 <= i < names@.len() ==> (#[trigger] names@[i])@ == state_names(states)[i],
        symbols@.len() == interned_symbols(transitions@).len(),
        forall|i: int|
            0 <= i < symbols@.len() ==> sym_view(#[trigger] symbols@[i]) == interned_symbols(
                transitions@,
            )[i],
        names@.len() <= u32::MAX,
        symbols@.len() <= u32::MAX,
    ensures
        match r {
            Result::Ok(v) => {
                let rd = resolved_decls(states, transitions@);
                &&& transitions_resolvable(states, transitions@)
                &&& decls_match(rd, v.0@, v.1@, v.2@, v.3@)
                &&& decls_valid(
                    rd,
                    state_names(states).len() as int,
                    interned_symbols(transitions@).len() as int,
                )
            },
            Result::Err(e) => {
                &&& e == MachineError::UnknownState
                &&& !transitions_resolvable(states, transitions@)
            },
        },
{
    let n = transitions.len();
    let mut from_idx: Vec<u32> = Vec::new();
    let mut sym_idx: Vec<u32> = Vec::new();
    let mut out_cb: Vec<CallbackIndex> = Vec::new();
    let mut to_idx: Vec<StateIndex> = Vec::new();
    let ghost rd = resolved_decls(states, transitions@);
    let mut i: usize = 0;
    while i < n
        invariant
            0 <= i <= n,
            n == transitions@.len(),
            names@.len() == state_names(states).len(),
            forall|q: int|
                0 <= q < names@.len() ==> (#[trigger] names@[q])@ == state_names(states)[q],
            symbols@.len() == interned_symbols(transitions@).len(),
            forall|q: int|
                0 <= q < symbols@.len() ==> sym_view(#[trigger] symbols@[q]) == interned_symbols(
                    transitions@,
                )[q],
            names@.len() <= u32::MAX,
            symbols@.len() <= u32::MAX,
            rd == resolved_decls(states, transitions@),
            from_idx@.len() == i,
            sym_idx@.len() == i,
            out_cb@.len() == i,
            to_idx@.len() == i,
            forall|k: int|
                0 <= k < i ==> {
                    &&& ((#[trigger] from_idx@[k]) as int) == rd[k].0
                    &&& (sym_idx@[k] as int) == rd[k].1
                    &&& out_cb@[k] == rd[k].2
                    &&& to_idx@[k] == rd[k].3
                },
            forall|k: int|
                0 <= k < i ==> {
                    let d = #[trigger] rd[k];
                    &&& 0 <= d.0 < names@.len()
                    &&& 0 <= d.1 < symbols@.len()
                    &&& 0 <= d.3.0 < names@.len()
                },
            forall|k: int|
                0 <= k < i ==> state_names(states).contains(
                    (#[trigger] transitions@[k]).previous_state@,
                ) && state_names(states).contains(transitions@[k].following_state@),
        decreases n - i,
    {
        let t = &transitions[i];
        let from = match lookup_name(names, &t.previous_state) {
            Option::Some(ix) => ix,
            Option::None => {
                proof {
                    if state_names(states).contains(transitions@[i as int].previous_state@) {
                        let q = choose|q: int|
                            0 <= q < state_names(states).len() && state_names(states)[q]
                                == transitions@[i as int].previous_state@;
                        assert(names@[q]@ == transitions@[i as int].previous_state@);
                    }
                }
                return Result::Err(MachineError::UnknownState);
            },
        };
        let to = match lookup_name(names, &t.following_state) {
            Option::Some(ix) => ix,
            Option::None => {
                proof {
                    if state_names(states).contains(transitions@[i as int].following_state@) {
                        let q = choose|q: int|
                            0 <= q < state_names(states).len() && state_names(states)[q]
                                == transitions@[i as int].following_state@;
                        assert(names@[q]@ == transitions@[i as int].following_state@);
                    }
                }
                return Result::Err(MachineError::UnknownState);
            },
        };
        proof {
            lemma_interned_contains(transitions@, i as int);
            let v = sym_view(transitions@[i as int].symbol);
            let q = choose|q: int|
                0 <= q < interned_symbols(transitions@).len() && interned_symbols(transitions@)[q]
                    == v;
            assert(sym_view(symbols@[q]) == v);
        }
        let sy = lookup_symbol_index(symbols, &t.symbol);
        proof {
            let prev = transitions@[i as int].previous_state@;
            let foll = transitions@[i as int].following_state@;
            let v = sym_view(transitions@[i as int].symbol);
            assert forall|j: int| 0 <= j < from implies state_names(states)[j] != prev by {
                assert(names@[j]@ != prev);
            }
            lemma_index_of_first_found(state_names(states), prev, from as int);
            assert forall|j: int| 0 <= j < to implies state_names(states)[j] != foll by {
                assert(names@[j]@ != foll);
            }
            lemma_index_of_first_found(state_names(states), foll, to as int);
            assert forall|j: int| 0 <= j < sy implies interned_symbols(transitions@)[j] != v by {
                assert(sym_view(symbols@[j]) != v);
            }
            lemma_index_of_first_found(interned_symbols(transitions@), v, sy as int);
            assert(state_names(states)[from as int] == prev);
            assert(state_names(states).contains(prev));
            assert(state_names(states).contains(foll));
        }
        from_idx.push(from as u32);
        sym_idx.push(sy as u32);
        out_cb.push(t.output);
        to_idx.push(StateIndex(to as u32));
        proof {
            assert(rd[i as int] == resolved_decl(
                state_names(states),
                interned_symbols(transitions@),
                transitions@[i as int],
            ));
            assert(((from as u32) as int) == rd[i as int].0);
            assert(((sy as u32) as int) == rd[i as int].1);
            assert(to_idx@[i as int] == rd[i as int].3);
            assert forall|k2: int| 0 <= k2 < i + 1 implies {
                &&& ((#[trigger] from_idx@[k2]) as int) == rd[k2].0
                &&& (sym_idx@[k2] as int) == rd[k2].1
                &&& out_cb@[k2] == rd[k2].2
                &&& to_idx@[k2] == rd[k2].3
            } by {
                if k2 < i {
                    assert(from_idx@[k2] as int == rd[k2].0);
                }
            }
        }
        i = i + 1;
    }
    proof {
        assert(decls_match(rd, from_idx@, sym_idx@, out_cb@, to_idx@));
    }
    Result::Ok((from_idx, sym_idx, out_cb, to_idx))
}

/// Resolves the configured initial state names, in order, duplicates kept.
/// Fails with `UnknownState` exactly when a name was never declared.
fn resolve_initial(names: &Vec<String>, initial: &Vec<String>, Ghost(states): Ghost<Seq<State>>)
    -> (r: Result<Vec<StateIndex>, MachineError>)
    requires
        names@.len() == state_names(states).len(),
        forall|i: int| 0 <= i < names@.len() ==> (#[trigger] names@[i])@ == state_names(states)[i],
        names@.len() <= u32::MAX,
    ensures
        match r {
            Result::Ok(v) => {
                &&& initial_resolvable(states, initial@)
                &&& v@.len() == initial@.len()
                &&& forall|i: int|
                    0 <= i < initial@.len() ==> (#[trigger] v@[i]) == StateIndex(
                        index_of_first(state_names(states), initial@[i]@) as u32,
                    ) && (v@[i].0 as int) < state_names(states).len()
            },
            Result::Err(e) => {
                &&& e == MachineError::UnknownState
                &&& !initial_resolvable(states, initial@)
            },
        },
{
    let n = initial.len();
    let mut resolved: Vec<StateIndex> = Vec::new();
    let mut i: usize = 0;
    while i < n
        invariant
            0 <= i <= n,
            n == initial@.len(),
            names@.len() == state_names(states).len(),
            forall|q: int|
                0 <= q < names@.len() ==> (#[trigger] names@[q])@ == state_names(states)[q],
            names@.len() <= u32::MAX,
            resolved@.len() == i,
            forall|k: int|
                0 <= k < i ==> (#[trigger] resolved@[k]) == StateIndex(
                    index_of_first(state_names(states), initial@[k]@) as u32,
                ) && (resolved@[k].0 as int) < state_names(states).len(),
            forall|k: int|
                0 <= k < i ==> state_names(states).contains((#[trigger] initial@[k])@),
        decreases n - i,
    {
        let ix = match lookup_name(names, &initial[i]) {
            Option::Some(ix) => ix,
            Option::None => {
                proof {
                    if state_names(states).contains(initial@[i as int]@) {
                        let q = choose|q: int|
                            0 <= q < state_names(states).len() && state_names(states)[q]
                                == initial@[i as int]@;
                        assert(names@[q]@ == initial@[i as int]@);
                    }
                }
                return Result::Err(MachineError::UnknownState);
            },
        };
        proof {
            let nm = initial@[i as int]@;
            assert forall|j: int| 0 <= j < ix implies state_names(states)[j] != nm by {
                assert(names@[j]@ != nm);
            }
            lemma_index_of_first_found(state_names(states), nm, ix as int);
            assert(state_names(states)[ix as int] == nm);
            assert(state_names(states).contains(nm));
        }
        resolved.push(StateIndex(ix as u32));
        i = i + 1;
    }
    Result::Ok(resolved)
}


/// First table-building phase: counts the declarations of every
/// (state, symbol) pair.
fn count_pairs(
    n_states: usize,
    k: usize,
    from_idx: &Vec<u32>,
    sym_idx: &Vec<u32>,
    Ghost(rd): Ghost<Seq<(int, int, CallbackIndex, StateIndex)>>,
) -> (counts: Vec<u32>)
    requires
        from_idx@.len() == rd.len(),
        sym_idx@.len() == rd.len(),
        forall|q: int|
            0 <= q < rd.len() ==> ((#[trigger] from_idx@[q]) as int) == rd[q].0 && (
            sym_idx@[q] as int) == rd[q].1,
        decls_valid(rd, n_states as int, k as int),
        rd.len() <= u32::MAX,
        k >= 1,
        (n_states as int) * (k as int) <= usize::MAX,
    ensures
        counts@.len() == (n_states as int) * (k as int),
        forall|s: int, y: int|
            0 <= s < n_states && 0 <= y < k ==> (#[trigger] counts@[pair_of(
                k as int,
                s,
                y,
            )] as int) == decl_outputs(rd, s, y).len(),
{
    let ghost ki = k as int;
    let ghost nsi = n_states as int;
    let n_transs = from_idx.len();
    let n_pairs = n_states * k;
    let mut counts: Vec<u32> = Vec::new();
    let mut q0: usize = 0;
    while q0 < n_pairs
        invariant
            0 <= q0 <= n_pairs,
            counts@.len() == q0,
            forall|q: int| 0 <= q < q0 ==> (#[trigger] counts@[q]) == 0,
        decreases n_pairs - q0,
    {
        counts.push(0);
        q0 = q0 + 1;
    }
    proof {
        assert(rd.take(0) =~= Seq::<(int, int, CallbackIndex, StateIndex)>::empty());
        assert forall|s: int, y: int| 0 <= s < nsi && 0 <= y < ki implies (#[trigger] counts@[
        pair_of(ki, s, y)] as int) == decl_outputs(rd.take(0), s, y).len() by {
            lemma_pair_bound(nsi, ki, s, y);
        }
    }
    let mut i: usize = 0;
    while i < n_transs
        invariant
            0 <= i <= n_transs,
            n_transs == rd.len(),
            rd.len() <= u32::MAX,
            from_idx@.len() == rd.len(),
            sym_idx@.len() == rd.len(),
            forall|q: int|
                0 <= q < rd.len() ==> ((#[trigger] from_idx@[q]) as int) == rd[q].0 && (
                sym_idx@[q] as int) == rd[q].1,
            decls_valid(rd, nsi, ki),
            nsi == n_states as int,
            ki == k as int,
            k >= 1,
            n_pairs as int == nsi * ki,
            counts@.len() == n_pairs,
            forall|s: int, y: int|
                0 <= s < nsi && 0 <= y < ki ==> (#[trigger] counts@[pair_of(ki, s, y)] as int)
                    == decl_outputs(rd.take(i as int), s, y).len(),
            forall|q: int| 0 <= q < n_pairs ==> (#[trigger] counts@[q] as int) <= i,
        decreases n_transs - i,
    {
        let s_i = from_idx[i] as usize;
        let y_i = sym_idx[i] as usize;
        proof {
            assert(rd[i as int].0 == s_i as int && rd[i as int].1 == y_i as int);
            lemma_pair_bound(nsi, ki, s_i as int, y_i as int);
        }
        let p = s_i * k + y_i;
        let c = counts[p];
        proof {
            assert(counts@[pair_of(ki, s_i as int, y_i as int)] == counts@[p as int]);
        }
        counts.set(p, c + 1);
        proof {
            assert(rd.take(i + 1).drop_last() =~= rd.take(i as int));
            assert(rd.take(i + 1).last() == rd[i as int]);
            assert forall|s: int, y: int| 0 <= s < nsi && 0 <= y < ki implies (#[trigger] counts@[
            pair_of(ki, s, y)] as int) == decl_outputs(rd.take(i + 1), s, y).len() by {
                lemma_pair_bound(nsi, ki, s, y);
                if s == s_i as int && y == y_i as int {
                    assert(decl_outputs(rd.take(i + 1), s, y) == decl_outputs(
                        rd.take(i as int),
                        s,
                        y,
                    ).push(rd[i as int].2));
                } else {
                    lemma_pair_injective(ki, s, y, s_i as int, y_i as int);
                    assert(decl_outputs(rd.take(i + 1), s, y) == decl_outputs(
                        rd.take(i as int),
                        s,
                        y,
                    ));
                }
            }
        }
        i = i + 1;
    }
    proof {
        assert(rd.take(n_transs as int) =~= rd);
    }
    counts
}

/// Second table-building phase: prefix sums over the per-pair counts give
/// each pair its start offset, in row-major order, the empty symbol first
/// within each state.
#[verifier::rlimit(60)]
fn prefix_sums(
    n_states: usize,
    k: usize,
    counts: &Vec<u32>,
    Ghost(rd): Ghost<Seq<(int, int, CallbackIndex, StateIndex)>>,
) -> (lists: Vec<TransitionIndex>)
    requires
        counts@.len() == (n_states as int) * (k as int),
        forall|s: int, y: int|
            0 <= s < n_states && 0 <= y < k ==> (#[trigger] counts@[pair_of(
                k as int,
                s,
                y,
            )] as int) == decl_outputs(rd, s, y).len(),
        decls_valid(rd, n_states as int, k as int),
        rd.len() <= u32::MAX,
        k >= 1,
        (n_states as int) * (k as int) <= usize::MAX,
    ensures
        lists@.len() == (n_states as int) * (k as int),
        lists@.len() > 0 ==> (lists@[0].0 as int) == 0,
        table_layout(rd, n_states as int, k as int, lists@, counts@),
{
    let ghost ki = k as int;
    let ghost nsi = n_states as int;
    let n_pairs = n_states * k;
    let mut lists: Vec<TransitionIndex> = Vec::new();
    let mut running: u32 = 0;
    proof {
        lemma_decls_before_zero(rd, ki, 0);
    }
    let mut s: usize = 0;
    while s < n_states
        invariant
            0 <= s <= n_states,
            nsi == n_states as int,
            ki == k as int,
            k >= 1,
            rd.len() <= u32::MAX,
            n_pairs as int == nsi * ki,
            counts@.len() == n_pairs,
            decls_valid(rd, nsi, ki),
            forall|s2: int, y2: int|
                0 <= s2 < nsi && 0 <= y2 < ki ==> (#[trigger] counts@[pair_of(ki, s2, y2)] as int)
                    == decl_outputs(rd, s2, y2).len(),
            lists@.len() == (s as int) * ki,
            running as int == n_decls_before(rd, ki, (s as int) * ki),
            running as int <= rd.len(),
            lists@.len() > 0 ==> (lists@[0].0 as int) == 0,
            forall|q: int| 0 <= q < lists@.len() ==> ((#[trigger] lists@[q]).0 as int) <= running,
            forall|q1: int, q2: int|
                0 <= q1 <= q2 < lists@.len() ==> ((#[trigger] lists@[q1]).0 as int) <= ((
                #[trigger] lists@[q2]).0 as int),
            forall|q: int|
                0 <= q < lists@.len() ==> ((#[trigger] lists@[q]).0 as int) + (counts@[q] as int)
                    == (if q + 1 < lists@.len() {
                    lists@[q + 1].0 as int
                } else {
                    running as int
                }),
        decreases n_states - s,
    {
        let mut y: usize = 0;
        while y < k
            invariant
                0 <= y <= k,
                0 <= s < n_states,
                nsi == n_states as int,
                ki == k as int,
                k >= 1,
                rd.len() <= u32::MAX,
                n_pairs as int == nsi * ki,
                counts@.len() == n_pairs,
                decls_valid(rd, nsi, ki),
                forall|s2: int, y2: int|
                    0 <= s2 < nsi && 0 <= y2 < ki ==> (#[trigger] counts@[pair_of(
                        ki,
                        s2,
                        y2,
                    )] as int) == decl_outputs(rd, s2, y2).len(),
                lists@.len() == (s as int) * ki + (y as int),
                running as int == n_decls_before(rd, ki, (s as int) * ki + (y as int)),
                running as int <= rd.len(),
                lists@.len() > 0 ==> (lists@[0].0 as int) == 0,
                forall|q: int|
                    0 <= q < lists@.len() ==> ((#[trigger] lists@[q]).0 as int) <= running,
                forall|q1: int, q2: int|
                    0 <= q1 <= q2 < lists@.len() ==> ((#[trigger] lists@[q1]).0 as int) <= ((
                    #[trigger] lists@[q2]).0 as int),
                forall|q: int|
                    0 <= q < lists@.len() ==> ((#[trigger] lists@[q]).0 as int) + (
                    counts@[q] as int) == (if q + 1 < lists@.len() {
                        lists@[q + 1].0 as int
                    } else {
                        running as int
                    }),
            decreases k - y,
        {
            proof {
                lemma_pair_bound(nsi, ki, s as int, y as int);
                if lists@.len() == 0 {
                    lemma_decls_before_zero(rd, ki, 0);
                }
            }
            let p = s * k + y;
            lists.push(TransitionIndex(running));
            let c = counts[p];
            proof {
                assert(counts@[pair_of(ki, s as int, y as int)] == counts@[p as int]);
                lemma_decls_before_step(rd, ki, s as int, y as int);
                lemma_decls_before_le(rd, ki, (s as int) * ki + (y as int) + 1);
            }
            running = running + c;
            y = y + 1;
        }
        s = s + 1;
        proof {
            assert((s as int) * ki == ((s as int) - 1) * ki + ki) by (nonlinear_arith);
        }
    }
    proof {
        lemma_decls_before_all(rd, nsi, ki, nsi * ki);
        assert(table_layout(rd, nsi, ki, lists@, counts@));
    }
    lists
}

/// The start-offset table `lists` and per-pair counts `counts` lay the
/// pairs out contiguously in row-major order over the declarations `rd`:
/// monotone offsets bounded by the declaration count, each pair's count
/// between its start and the next pair's start.
spec fn table_layout(
    rd: Seq<(int, int, CallbackIndex, StateIndex)>,
    nsi: int,
    ki: int,
    lists: Seq<TransitionIndex>,
    counts: Seq<u32>,
) -> bool {
    &&& lists.len() == nsi * ki
    &&& counts.len() == nsi * ki
    &&& forall|q1: int, q2: int|
        0 <= q1 <= q2 < lists.len() ==> ((#[trigger] lists[q1]).0 as int) <= ((
        #[trigger] lists[q2]).0 as int)
    &&& forall|q: int| 0 <= q < lists.len() ==> ((#[trigger] lists[q]).0 as int) <= rd.len()
    &&& forall|q: int|
        0 <= q < lists.len() ==> ((#[trigger] lists[q]).0 as int) + (counts[q] as int) == (if q + 1
            < lists.len() {
            lists[q + 1].0 as int
        } else {
            rd.len() as int
        })
    &&& forall|s2: int, y2: int|
        0 <= s2 < nsi && 0 <= y2 < ki ==> (#[trigger] counts[pair_of(ki, s2, y2)] as int)
            == decl_outputs(rd, s2, y2).len()
}

/// Mid-placement state after the first `i2` declarations: each pair's
/// cursor sits past exactly its declarations placed so far, and the slots
/// between its start and its cursor hold them in declaration order.
spec fn placed_inv(
    rd: Seq<(int, int, CallbackIndex, StateIndex)>,
    nsi: int,
    ki: int,
    lists: Seq<TransitionIndex>,
    cursors: Seq<u32>,
    t_out: Seq<CallbackIndex>,
    t_fs: Seq<StateIndex>,
    i2: int,
) -> bool {
    forall|s2: int, y2: int|
        0 <= s2 < nsi && 0 <= y2 < ki ==> {
            &&& ((#[trigger] cursors[pair_of(ki, s2, y2)]) as int) == (lists[pair_of(
                ki,
                s2,
                y2,
            )].0 as int) + decl_outputs(rd.take(i2), s2, y2).len()
            &&& t_out.subrange(
                lists[pair_of(ki, s2, y2)].0 as int,
                cursors[pair_of(ki, s2, y2)] as int,
            ) == decl_outputs(rd.take(i2), s2, y2)
            &&& t_fs.subrange(
                lists[pair_of(ki, s2, y2)].0 as int,
                cursors[pair_of(ki, s2, y2)] as int,
            ) == decl_dests(rd.take(i2), s2, y2)
        }
}

/// The finished table: each pair's span, from its start offset to the
/// next pair's (or the end), holds exactly its declarations, in order.
spec fn pair_span_at(
    rd: Seq<(int, int, CallbackIndex, StateIndex)>,
    ki: int,
    lists: Seq<TransitionIndex>,
    t_out: Seq<CallbackIndex>,
    t_fs: Seq<StateIndex>,
    s2: int,
    y2: int,
) -> bool {
    &&& decl_outputs(rd, s2, y2) == t_out.subrange(
        lists[pair_of(ki, s2, y2)].0 as int,
        if pair_of(ki, s2, y2) + 1 < lists.len() {
            lists[pair_of(ki, s2, y2) + 1].0 as int
        } else {
            rd.len() as int
        },
    )
    &&& decl_dests(rd, s2, y2) == t_fs.subrange(
        lists[pair_of(ki, s2, y2)].0 as int,
        if pair_of(ki, s2, y2) + 1 < lists.len() {
            lists[pair_of(ki, s2, y2) + 1].0 as int
        } else {
            rd.len() as int
        },
    )
}

spec fn pair_spans(
    rd: Seq<(int, int, CallbackIndex, StateIndex)>,
    nsi: int,
    ki: int,
    lists: Seq<TransitionIndex>,
    t_out: Seq<CallbackIndex>,
    t_fs: Seq<StateIndex>,
) -> bool {
    forall|s2: int, y2: int|
        0 <= s2 < nsi && 0 <= y2 < ki ==> #[trigger] pair_span_at(
            rd,
            ki,
            lists,
            t_out,
            t_fs,
            s2,
            y2,
        )
}

/// Placing declaration `i2` in its pair's next reserved slot preserves
/// the placement invariant: the pair's settled span grows by that
/// declaration, every other pair's span is untouched.
#[verifier::rlimit(100)]
proof fn lemma_place_step(
    rd: Seq<(int, int, CallbackIndex, StateIndex)>,
    nsi: int,
    ki: int,
    lists: Seq<TransitionIndex>,
    counts: Seq<u32>,
    cursors0: Seq<u32>,
    out0: Seq<CallbackIndex>,
    fs0: Seq<StateIndex>,
    i2: int,
)
    requires
        0 <= i2 < rd.len(),
        rd.len() <= u32::MAX,
        ki >= 1,
        decls_valid(rd, nsi, ki),
        table_layout(rd, nsi, ki, lists, counts),
        cursors0.len() == lists.len(),
        out0.len() == rd.len(),
        fs0.len() == rd.len(),
        placed_inv(rd, nsi, ki, lists, cursors0, out0, fs0, i2),
    ensures
        ({
            let p = pair_of(ki, rd[i2].0, rd[i2].1);
            let slot = cursors0[p] as int;
            &&& 0 <= slot < rd.len()
            &&& placed_inv(
                rd,
                nsi,
                ki,
                lists,
                cursors0.update(p, ((cursors0[p] + 1) as u32)),
                out0.update(slot, rd[i2].2),
                fs0.update(slot, rd[i2].3),
                i2 + 1,
            )
        }),
{
    let s_i = rd[i2].0;
    let y_i = rd[i2].1;
    let pi = pair_of(ki, s_i, y_i);
    lemma_pair_bound(nsi, ki, s_i, y_i);
    lemma_decl_outputs_take(rd, i2, s_i, y_i);
    lemma_decl_lens(rd, s_i, y_i);
    lemma_decl_lens(rd.take(i2), s_i, y_i);
    let slot = cursors0[pi] as int;
    assert((lists[pi].0 as int) <= slot);
    assert(slot < (lists[pi].0 as int) + (counts[pi] as int));
    let cursors1 = cursors0.update(pi, ((cursors0[pi] + 1) as u32));
    let out1 = out0.update(slot, rd[i2].2);
    let fs1 = fs0.update(slot, rd[i2].3);
    assert(rd.take(i2 + 1).drop_last() =~= rd.take(i2));
    assert(rd.take(i2 + 1).last() == rd[i2]);
    assert forall|s2: int, y2: int| 0 <= s2 < nsi && 0 <= y2 < ki implies {
        &&& ((#[trigger] cursors1[pair_of(ki, s2, y2)]) as int) == (lists[pair_of(
            ki,
            s2,
            y2,
        )].0 as int) + decl_outputs(rd.take(i2 + 1), s2, y2).len()
        &&& out1.subrange(
            lists[pair_of(ki, s2, y2)].0 as int,
            cursors1[pair_of(ki, s2, y2)] as int,
        ) == decl_outputs(rd.take(i2 + 1), s2, y2)
        &&& fs1.subrange(
            lists[pair_of(ki, s2, y2)].0 as int,
            cursors1[pair_of(ki, s2, y2)] as int,
        ) == decl_dests(rd.take(i2 + 1), s2, y2)
    } by {
        lemma_pair_bound(nsi, ki, s2, y2);
        let p2 = pair_of(ki, s2, y2);
        if s2 == s_i && y2 == y_i {
            assert(decl_outputs(rd.take(i2 + 1), s2, y2) == decl_outputs(rd.take(i2), s2, y2).push(
                rd[i2].2,
            ));
            assert(decl_dests(rd.take(i2 + 1), s2, y2) == decl_dests(rd.take(i2), s2, y2).push(
                rd[i2].3,
            ));
            assert(out1.subrange(lists[p2].0 as int, cursors1[p2] as int) =~= decl_outputs(
                rd.take(i2),
                s2,
                y2,
            ).push(rd[i2].2));
            assert(fs1.subrange(lists[p2].0 as int, cursors1[p2] as int) =~= decl_dests(
                rd.take(i2),
                s2,
                y2,
            ).push(rd[i2].3));
        } else {
            lemma_pair_injective(ki, s2, y2, s_i, y_i);
            assert(p2 != pi);
            assert(decl_outputs(rd.take(i2 + 1), s2, y2) == decl_outputs(rd.take(i2), s2, y2));
            assert(decl_dests(rd.take(i2 + 1), s2, y2) == decl_dests(rd.take(i2), s2, y2));
            lemma_decl_outputs_take(rd, i2, s2, y2);
            lemma_decl_lens(rd, s2, y2);
            assert((cursors0[p2] as int) <= (lists[p2].0 as int) + (counts[p2] as int));
            if p2 < pi {
                assert((cursors0[p2] as int) <= (lists[p2 + 1].0 as int));
                assert((lists[p2 + 1].0 as int) <= (lists[pi].0 as int));
                assert((cursors0[p2] as int) <= slot);
            } else {
                assert(pi + 1 <= p2);
                assert(slot < (lists[pi].0 as int) + (counts[pi] as int));
                assert((lists[pi].0 as int) + (counts[pi] as int) <= (lists[p2].0 as int));
            }
            assert(out1.subrange(lists[p2].0 as int, cursors1[p2] as int) =~= decl_outputs(
                rd.take(i2),
                s2,
                y2,
            ));
            assert(fs1.subrange(lists[p2].0 as int, cursors1[p2] as int) =~= decl_dests(
                rd.take(i2),
                s2,
                y2,
            ));
        }
    }
}

/// After every declaration is placed, each pair's settled span reaches
/// the next pair's start: the table is exactly the per-pair declaration
/// sequences, contiguous and in row-major order.
proof fn lemma_place_final(
    rd: Seq<(int, int, CallbackIndex, StateIndex)>,
    nsi: int,
    ki: int,
    lists: Seq<TransitionIndex>,
    counts: Seq<u32>,
    cursors: Seq<u32>,
    t_out: Seq<CallbackIndex>,
    t_fs: Seq<StateIndex>,
)
    requires
        ki >= 1,
        decls_valid(rd, nsi, ki),
        table_layout(rd, nsi, ki, lists, counts),
        cursors.len() == lists.len(),
        placed_inv(rd, nsi, ki, lists, cursors, t_out, t_fs, rd.len() as int),
    ensures
        pair_spans(rd, nsi, ki, lists, t_out, t_fs),
{
    assert(rd.take(rd.len() as int) =~= rd);
    assert(pair_spans(rd, nsi, ki, lists, t_out, t_fs)) by {
        assert forall|s2: int, y2: int| 0 <= s2 < nsi && 0 <= y2 < ki implies #[trigger] pair_span_at(
            rd,
            ki,
            lists,
            t_out,
            t_fs,
            s2,
            y2,
        ) by {
            lemma_pair_bound(nsi, ki, s2, y2);
            let p2 = pair_of(ki, s2, y2);
            assert(rd.take(rd.len() as int) =~= rd);
            let start = lists[p2].0 as int;
            let endx = if p2 + 1 < lists.len() {
                lists[p2 + 1].0 as int
            } else {
                rd.len() as int
            };
            assert(decl_outputs(rd.take(rd.len() as int), s2, y2) == decl_outputs(rd, s2, y2));
            assert(decl_dests(rd.take(rd.len() as int), s2, y2) == decl_dests(rd, s2, y2));
            assert((cursors[p2] as int) == start + decl_outputs(
                rd.take(rd.len() as int),
                s2,
                y2,
            ).len());
            assert(t_out.subrange(start, cursors[p2] as int) == decl_outputs(
                rd.take(rd.len() as int),
                s2,
                y2,
            ));
            assert(t_fs.subrange(start, cursors[p2] as int) == decl_dests(
                rd.take(rd.len() as int),
                s2,
                y2,
            ));
            assert(start + (counts[p2] as int) == endx);
            assert((counts[p2] as int) == decl_outputs(rd, s2, y2).len());
            assert((cursors[p2] as int) == endx);
            assert(t_out.subrange(start, endx) == decl_outputs(rd, s2, y2));
            assert(t_fs.subrange(start, endx) == decl_dests(rd, s2, y2));
        }
    }
}

/// Third table-building phase: re-walks the declarations, placing each
/// one's output callback and destination in its pair's next reserved
/// slot, so every pair's transitions end up contiguous and in declaration
/// order.
fn place_decls(
    n_states: usize,
    k: usize,
    from_idx: &Vec<u32>,
    sym_idx: &Vec<u32>,
    out_cb: &Vec<CallbackIndex>,
    to_idx: &Vec<StateIndex>,
    lists: &Vec<TransitionIndex>,
    counts: &Vec<u32>,
    Ghost(rd): Ghost<Seq<(int, int, CallbackIndex, StateIndex)>>,
) -> (r: (Vec<CallbackIndex>, Vec<StateIndex>))
    requires
        decls_match(rd, from_idx@, sym_idx@, out_cb@, to_idx@),
        decls_valid(rd, n_states as int, k as int),
        rd.len() <= u32::MAX,
        k >= 1,
        table_layout(rd, n_states as int, k as int, lists@, counts@),
    ensures
        r.0@.len() == rd.len(),
        r.1@.len() == rd.len(),
        pair_spans(rd, n_states as int, k as int, lists@, r.0@, r.1@),
        forall|t: int| 0 <= t < r.1@.len() ==> ((#[trigger] r.1@[t]).0 as int) < n_states,
{
    let ghost ki = k as int;
    let ghost nsi = n_states as int;
    let n_transs = from_idx.len();
    let n_pairs = lists.len();
    let mut t_out: Vec<CallbackIndex> = Vec::new();
    let mut t_fs: Vec<StateIndex> = Vec::new();
    let mut f0: usize = 0;
    while f0 < n_transs
        invariant
            0 <= f0 <= n_transs,
            n_transs == rd.len(),
            decls_valid(rd, nsi, ki),
            nsi == n_states as int,
            t_out@.len() == f0,
            t_fs@.len() == f0,
            forall|t: int| 0 <= t < f0 ==> ((#[trigger] t_fs@[t]).0 as int) < nsi,
        decreases n_transs - f0,
    {
        proof {
            assert(rd[0].0 < nsi);
        }
        t_out.push(CallbackIndex(0));
        t_fs.push(StateIndex(0));
        f0 = f0 + 1;
    }
    let mut cursors: Vec<u32> = Vec::new();
    let mut q1: usize = 0;
    while q1 < n_pairs
        invariant
            0 <= q1 <= n_pairs,
            n_pairs == lists@.len(),
            cursors@.len() == q1,
            forall|q: int| 0 <= q < q1 ==> (#[trigger] cursors@[q]) == lists@[q].0,
        decreases n_pairs - q1,
    {
        let v = lists[q1].0;
        cursors.push(v);
        q1 = q1 + 1;
    }
    proof {
        assert(rd.take(0) =~= Seq::<(int, int, CallbackIndex, StateIndex)>::empty());
        assert forall|s2: int, y2: int| 0 <= s2 < nsi && 0 <= y2 < ki implies {
            &&& ((#[trigger] cursors@[pair_of(ki, s2, y2)]) as int) == (lists@[pair_of(
                ki,
                s2,
                y2,
            )].0 as int) + decl_outputs(rd.take(0), s2, y2).len()
            &&& t_out@.subrange(
                lists@[pair_of(ki, s2, y2)].0 as int,
                cursors@[pair_of(ki, s2, y2)] as int,
            ) == decl_outputs(rd.take(0), s2, y2)
            &&& t_fs@.subrange(
                lists@[pair_of(ki, s2, y2)].0 as int,
                cursors@[pair_of(ki, s2, y2)] as int,
            ) == decl_dests(rd.take(0), s2, y2)
        } by {
            lemma_pair_bound(nsi, ki, s2, y2);
            assert(t_out@.subrange(
                lists@[pair_of(ki, s2, y2)].0 as int,
                lists@[pair_of(ki, s2, y2)].0 as int,
            ) =~= Seq::<CallbackIndex>::empty());
            assert(t_fs@.subrange(
                lists@[pair_of(ki, s2, y2)].0 as int,
                lists@[pair_of(ki, s2, y2)].0 as int,
            ) =~= Seq::<StateIndex>::empty());
        }
        assert(placed_inv(rd, nsi, ki, lists@, cursors@, t_out@, t_fs@, 0));
    }
    let mut i2: usize = 0;
    while i2 < n_transs
        invariant
            0 <= i2 <= n_transs,
            n_transs == rd.len(),
            rd.len() <= u32::MAX,
            decls_match(rd, from_idx@, sym_idx@, out_cb@, to_idx@),
            decls_valid(rd, nsi, ki),
            nsi == n_states as int,
            ki == k as int,
            k >= 1,
            table_layout(rd, nsi, ki, lists@, counts@),
            lists@.len() <= usize::MAX,
            cursors@.len() == lists@.len(),
            t_out@.len() == rd.len(),
            t_fs@.len() == rd.len(),
            placed_inv(rd, nsi, ki, lists@, cursors@, t_out@, t_fs@, i2 as int),
            forall|t: int| 0 <= t < t_fs@.len() ==> ((#[trigger] t_fs@[t]).0 as int) < nsi,
        decreases n_transs - i2,
    {
        let ghost cursors0 = cursors@;
        let ghost out0 = t_out@;
        let ghost fs0 = t_fs@;
        proof {
            lemma_place_step(rd, nsi, ki, lists@, counts@, cursors0, out0, fs0, i2 as int);
            assert(rd[i2 as int].0 == from_idx@[i2 as int] as int);
            assert(rd[i2 as int].1 == sym_idx@[i2 as int] as int);
            assert(rd[i2 as int].2 == out_cb@[i2 as int]);
            assert(rd[i2 as int].3 == to_idx@[i2 as int]);
            lemma_pair_bound(nsi, ki, rd[i2 as int].0, rd[i2 as int].1);
        }
        let s_i = from_idx[i2] as usize;
        let y_i = sym_idx[i2] as usize;
        let p = s_i * k + y_i;
        proof {
            assert(p as int == pair_of(ki, rd[i2 as int].0, rd[i2 as int].1));
        }
        let slot = cursors[p] as usize;
        t_out.set(slot, out_cb[i2]);
        t_fs.set(slot, to_idx[i2]);
        let cur = cursors[p];
        cursors.set(p, cur + 1);
        proof {
            let pi = pair_of(ki, rd[i2 as int].0, rd[i2 as int].1);
            assert(cursors@ =~= cursors0.update(pi, ((cursors0[pi] + 1) as u32)));
            assert(t_out@ =~= out0.update(cursors0[pi] as int, rd[i2 as int].2));
            assert(t_fs@ =~= fs0.update(cursors0[pi] as int, rd[i2 as int].3));
            assert(rd[i2 as int].3.0 < nsi);
        }
        i2 = i2 + 1;
    }
    proof {
        lemma_place_final(rd, nsi, ki, lists@, counts@, cursors@, t_out@, t_fs@);
    }
    (t_out, t_fs)
}

/// A parallel finite-state machine: interned symbols, per-state callback
/// slots, a flattened transition table grouped contiguously by
/// (state, symbol) pair, and the ordered active-state set.
pub struct StateMachine {
    symbols: Vec<Option<String>>,
    state_on_enter: Vec<CallbackIndex>,
    state_on_exit: Vec<CallbackIndex>,
    state_transition_lists: Vec<TransitionIndex>,
    transition_output: Vec<CallbackIndex>,
    transition_following_state: Vec<StateIndex>,
    initial_states: Vec<StateIndex>,
    current_states: Vec<StateIndex>,
    transition_range_buffer: Vec<(TransitionIndex, TransitionIndex)>,
    next_states_buffer: Vec<StateIndex>,
}

impl StateMachine {
    /// Number of states.
    pub closed spec fn n_states(self) -> int {
        self.state_on_exit@.len() as int
    }

    /// Number of interned symbols, the empty symbol included.
    pub closed spec fn n_symbols(self) -> int {
        self.symbols@.len() as int
    }

    /// Number of transitions in the table.
    pub closed spec fn total_transitions(self) -> int {
        self.transition_output@.len() as int
    }

    /// The interned symbol table, as symbol views.
    pub closed spec fn symbols_view(self) -> Seq<Option<Seq<char>>> {
        self.symbols@.map_values(|s: Option<String>| sym_view(s))
    }

    /// The enter-callback slot of each state.
    pub closed spec fn on_enter_view(self) -> Seq<CallbackIndex> {
        self.state_on_enter@
    }

    /// The exit-callback slot of each state.
    pub closed spec fn on_exit_view(self) -> Seq<CallbackIndex> {
        self.state_on_exit@
    }

    /// The configured initial active-state set.
    pub closed spec fn initial_view(self) -> Seq<StateIndex> {
        self.initial_states@
    }

    /// The current active-state set.
    pub closed spec fn active_view(self) -> Seq<StateIndex> {
        self.current_states@
    }

    /// Start offset stored for linear pair index `p`.
    pub closed spec fn list_at(self, p: int) -> int {
        self.state_transition_lists@[p].0 as int
    }

    /// Row-major linear index of the (state, symbol) pair.
    pub open spec fn pair_index(self, s: int, y: int) -> int {
        s * self.n_symbols() + y
    }

    /// First transition slot of the (state, symbol) pair.
    pub closed spec fn range_start(self, s: int, y: int) -> int {
        self.list_at(self.pair_index(s, y))
    }

    /// One past the last transition slot of the (state, symbol) pair: the
    /// next pair's start offset, or the table length for the last pair.
    pub closed spec fn range_end(self, s: int, y: int) -> int {
        if self.pair_index(s, y) + 1 < self.state_transition_lists@.len() {
            self.list_at(self.pair_index(s, y) + 1)
        } else {
            self.total_transitions()
        }
    }

    /// Output callbacks of the (state, symbol) pair, in declaration order.
    pub closed spec fn pair_outputs(self, s: int, y: int) -> Seq<CallbackIndex> {
        self.transition_output@.subrange(self.range_start(s, y), self.range_end(s, y))
    }

    /// Destination states of the (state, symbol) pair, in declaration order.
    pub closed spec fn pair_dests(self, s: int, y: int) -> Seq<StateIndex> {
        self.transition_following_state@.subrange(self.range_start(s, y), self.range_end(s, y))
    }

    /// The interned index of symbol view `v`, when `has_symbol` holds.
    pub open spec fn symbol_index(self, v: Option<Seq<char>>) -> int {
        choose|y: int| 0 <= y < self.n_symbols() && self.symbols_view()[y] == v
    }

    /// Whether symbol view `v` is interned.
    pub open spec fn has_symbol(self, v: Option<Seq<char>>) -> bool {
        exists|y: int| 0 <= y < self.n_symbols() && self.symbols_view()[y] == v
    }

    /// Output callbacks one active occurrence of state `s` fires on symbol
    /// `y`: its empty-symbol transitions, then its `y` transitions.
    pub open spec fn state_outputs(self, s: int, y: int) -> Seq<CallbackIndex> {
        self.pair_outputs(s, 0) + self.pair_outputs(s, y)
    }

    /// Successor states one active occurrence of state `s` contributes on
    /// symbol `y`, in the same order as `state_outputs`.
    pub open spec fn state_dests(self, s: int, y: int) -> Seq<StateIndex> {
        self.pair_dests(s, 0) + self.pair_dests(s, y)
    }

    /// All output callbacks fired by stepping the active sequence `active`
    /// on symbol `y`, in active-set order.
    pub open spec fn outputs_of(self, active: Seq<StateIndex>, y: int) -> Seq<CallbackIndex>
        decreases active.len(),
    {
        if active.len() == 0 {
            Seq::empty()
        } else {
            self.outputs_of(active.drop_last(), y) + self.state_outputs(
                active.last().0 as int,
                y,
            )
        }
    }

    /// The next active-state sequence after stepping `active` on symbol
    /// `y`: every transition's destination, in firing order, duplicates
    /// included.
    pub open spec fn next_actives(self, active: Seq<StateIndex>, y: int) -> Seq<StateIndex>
        decreases active.len(),
    {
        if active.len() == 0 {
            Seq::empty()
        } else {
            self.next_actives(active.drop_last(), y) + self.state_dests(active.last().0 as int, y)
        }
    }

    /// The exit callbacks of the states in `active`, in order, one per
    /// occurrence.
    pub open spec fn exits_of(self, active: Seq<StateIndex>) -> Seq<CallbackIndex>
        decreases active.len(),
    {
        if active.len() == 0 {
            Seq::empty()
        } else {
            self.exits_of(active.drop_last()).push(self.on_exit_view()[active.last().0 as int])
        }
    }

    /// The enter callbacks of the states in `states`, in order, one per
    /// occurrence.
    pub open spec fn enters_of(self, states: Seq<StateIndex>) -> Seq<CallbackIndex>
        decreases states.len(),
    {
        if states.len() == 0 {
            Seq::empty()
        } else {
            self.enters_of(states.drop_last()).push(self.on_enter_view()[states.last().0 as int])
        }
    }

    /// The full callback log of one step of `active` on symbol `y`: all
    /// exit callbacks, then all transition outputs, then all enter
    /// callbacks of the new active states.
    pub open spec fn step_log(self, active: Seq<StateIndex>, y: int) -> Seq<CallbackIndex> {
        self.exits_of(active) + self.outputs_of(active, y) + self.enters_of(
            self.next_actives(active, y),
        )
    }

    /// Every index in `states` names a state of the machine.
    pub open spec fn valid_states(self, states: Seq<StateIndex>) -> bool {
        forall|i: int| 0 <= i < states.len() ==> (#[trigger] states[i]).0 < self.n_states()
    }

    /// Well-formedness of the immutable part: consistent array lengths, the
    /// empty symbol at index 0 of a duplicate-free symbol table, monotone
    /// start offsets bounded by the table length, and only valid state
    /// indices in the table and the initial set.
    pub closed spec fn table_wf(self) -> bool {
        &&& self.state_on_enter@.len() == self.n_states()
        &&& self.n_states() <= u32::MAX
        &&& self.n_symbols() >= 1
        &&& self.n_symbols() <= u32::MAX
        &&& self.symbols@[0] is None
        &&& forall|i: int, j: int|
            0 <= i < j < self.n_symbols() ==> #[trigger] self.symbols_view()[i]
                != #[trigger] self.symbols_view()[j]
        &&& self.state_transition_lists@.len() == self.n_states() * self.n_symbols()
        &&& self.transition_following_state@.len() == self.total_transitions()
        &&& self.total_transitions() <= u32::MAX
        &&& forall|i: int, j: int|
            0 <= i <= j < self.state_transition_lists@.len() ==> #[trigger] self.list_at(i)
                <= #[trigger] self.list_at(j)
        &&& forall|i: int|
            0 <= i < self.state_transition_lists@.len() ==> #[trigger] self.list_at(i)
                <= self.total_transitions()
        &&& self.state_transition_lists@.len() > 0 ==> self.list_at(0) == 0
        &&& self.valid_states(self.transition_following_state@)
        &&& self.valid_states(self.initial_states@)
    }

    /// Full well-formedness: the table invariant plus a valid active set.
    pub closed spec fn wf(self) -> bool {
        &&& self.table_wf()
        &&& self.valid_states(self.current_states@)
    }

    /// The table invariant depends only on the fields `same_engine` fixes,
    /// so it carries over to any machine value with the same engine.
    proof fn lemma_same_engine_table_wf(a: Self, b: Self)
        requires
            a.table_wf(),
            a.same_engine(b),
        ensures
            b.table_wf(),
    {
        assert forall|i: int, j: int| 0 <= i < j < b.n_symbols() implies #[trigger] b
            .symbols_view()[i] != #[trigger] b.symbols_view()[j] by {
            assert(a.symbols_view()[i] != a.symbols_view()[j]);
            assert(b.symbols_view() =~= a.symbols_view());
        }
        assert forall|i: int, j: int|
            0 <= i <= j < b.state_transition_lists@.len() implies #[trigger] b.list_at(i)
            <= #[trigger] b.list_at(j) by {
            assert(a.list_at(i) <= a.list_at(j));
        }
        assert forall|i: int| 0 <= i < b.state_transition_lists@.len() implies #[trigger] b.list_at(
            i,
        ) <= b.total_transitions() by {
            assert(a.list_at(i) <= a.total_transitions());
        }
        assert forall|i: int|
            0 <= i < b.transition_following_state@.len() implies (
        #[trigger] b.transition_following_state@[i]).0 < b.n_states() by {
            assert(a.transition_following_state@[i].0 < a.n_states());
        }
        assert forall|i: int| 0 <= i < b.initial_states@.len() implies (
        #[trigger] b.initial_states@[i]).0 < b.n_states() by {
            assert(a.initial_states@[i].0 < a.n_states());
        }
        if b.state_transition_lists@.len() > 0 {
            assert(a.list_at(0) == 0);
        }
    }

    /// The machine's immutable part — everything built at construction —
    /// agrees between `self` and `other`.
    pub closed spec fn same_engine(self, other: Self) -> bool {
        &&& self.symbols == other.symbols
        &&& self.state_on_enter == other.state_on_enter
        &&& self.state_on_exit == other.state_on_exit
        &&& self.state_transition_lists == other.state_transition_lists
        &&& self.transition_output == other.transition_output
        &&& self.transition_following_state == other.transition_following_state
        &&& self.initial_states == other.initial_states
    }

    /// The scratch-buffer model of one state's contribution: its nonempty
    /// transition ranges, empty-symbol range first.
    spec fn state_ranges(self, s: int, y: int) -> Seq<(int, int)> {
        let e = (self.range_start(s, 0), self.range_end(s, 0));
        let r = (self.range_start(s, y), self.range_end(s, y));
        (if e.0 != e.1 {
            seq![e]
        } else {
            Seq::empty()
        }) + (if r.0 != r.1 {
            seq![r]
        } else {
            Seq::empty()
        })
    }

    /// The whole scratch buffer after scanning `active` on symbol `y`.
    spec fn ranges_of(self, active: Seq<StateIndex>, y: int) -> Seq<(int, int)>
        decreases active.len(),
    {
        if active.len() == 0 {
            Seq::empty()
        } else {
            self.ranges_of(active.drop_last(), y) + self.state_ranges(active.last().0 as int, y)
        }
    }

    /// The outputs a list of ranges yields, in range order.
    spec fn outputs_from(self, rs: Seq<(int, int)>) -> Seq<CallbackIndex>
        decreases rs.len(),
    {
        if rs.len() == 0 {
            Seq::empty()
        } else {
            self.outputs_from(rs.drop_last()) + self.transition_output@.subrange(
                rs.last().0,
                rs.last().1,
            )
        }
    }

    /// The destinations a list of ranges yields, in range order.
    spec fn dests_from(self, rs: Seq<(int, int)>) -> Seq<StateIndex>
        decreases rs.len(),
    {
        if rs.len() == 0 {
            Seq::empty()
        } else {
            self.dests_from(rs.drop_last()) + self.transition_following_state@.subrange(
                rs.last().0,
                rs.last().1,
            )
        }
    }

    /// `outputs_from` and `dests_from` distribute over appending ranges.
    proof fn lemma_from_append(self, rs1: Seq<(int, int)>, rs2: Seq<(int, int)>)
        ensures
            self.outputs_from(rs1 + rs2) == self.outputs_from(rs1) + self.outputs_from(rs2),
            self.dests_from(rs1 + rs2) == self.dests_from(rs1) + self.dests_from(rs2),
        decreases rs2.len(),
    {
        if rs2.len() == 0 {
            assert(rs1 + rs2 =~= rs1);
            assert(self.outputs_from(rs1) + self.outputs_from(rs2) =~= self.outputs_from(rs1));
            assert(self.dests_from(rs1) + self.dests_from(rs2) =~= self.dests_from(rs1));
        } else {
            self.lemma_from_append(rs1, rs2.drop_last());
            assert((rs1 + rs2).drop_last() =~= rs1 + rs2.drop_last());
            assert((rs1 + rs2).last() == rs2.last());
            assert(self.outputs_from(rs1) + self.outputs_from(rs2) =~= self.outputs_from(rs1)
                + self.outputs_from(rs2.drop_last()) + self.transition_output@.subrange(
                rs2.last().0,
                rs2.last().1,
            ));
            assert(self.dests_from(rs1) + self.dests_from(rs2) =~= self.dests_from(rs1)
                + self.dests_from(rs2.drop_last()) + self.transition_following_state@.subrange(
                rs2.last().0,
                rs2.last().1,
            ));
        }
    }

    /// One state's nonempty ranges yield exactly its `state_outputs` and
    /// `state_dests`: dropping empty ranges drops nothing.
    proof fn lemma_state_ranges(self, s: int, y: int)
        requires
            self.table_wf(),
            0 <= s < self.n_states(),
            0 <= y < self.n_symbols(),
        ensures
            self.outputs_from(self.state_ranges(s, y)) == self.state_outputs(s, y),
            self.dests_from(self.state_ranges(s, y)) == self.state_dests(s, y),
    {
        let e = (self.range_start(s, 0), self.range_end(s, 0));
        let r = (self.range_start(s, y), self.range_end(s, y));
        let se: Seq<(int, int)> = if e.0 != e.1 {
            seq![e]
        } else {
            Seq::empty()
        };
        let sr: Seq<(int, int)> = if r.0 != r.1 {
            seq![r]
        } else {
            Seq::empty()
        };
        self.lemma_from_append(se, sr);
        if e.0 != e.1 {
            self.lemma_from_singleton(e);
        } else {
            assert(self.pair_outputs(s, 0) =~= Seq::<CallbackIndex>::empty());
            assert(self.pair_dests(s, 0) =~= Seq::<StateIndex>::empty());
        }
        if r.0 != r.1 {
            self.lemma_from_singleton(r);
        } else {
            assert(self.pair_outputs(s, y) =~= Seq::<CallbackIndex>::empty());
            assert(self.pair_dests(s, y) =~= Seq::<StateIndex>::empty());
        }
        assert(self.outputs_from(se) + self.outputs_from(sr) =~= self.pair_outputs(s, 0)
            + self.pair_outputs(s, y));
        assert(self.dests_from(se) + self.dests_from(sr) =~= self.pair_dests(s, 0)
            + self.pair_dests(s, y));
    }

    /// A single range yields exactly its two subranges.
    proof fn lemma_from_singleton(self, r: (int, int))
        ensures
            self.outputs_from(seq![r]) == self.transition_output@.subrange(r.0, r.1),
            self.dests_from(seq![r]) == self.transition_following_state@.subrange(r.0, r.1),
    {
        let s: Seq<(int, int)> = seq![r];
        assert(s.drop_last() =~= Seq::<(int, int)>::empty());
        assert(s.last() == r);
        assert(self.outputs_from(Seq::<(int, int)>::empty()) == Seq::<CallbackIndex>::empty());
        assert(self.dests_from(Seq::<(int, int)>::empty()) == Seq::<StateIndex>::empty());
        assert(Seq::<CallbackIndex>::empty() + self.transition_output@.subrange(r.0, r.1)
            =~= self.transition_output@.subrange(r.0, r.1));
        assert(Seq::<StateIndex>::empty() + self.transition_following_state@.subrange(r.0, r.1)
            =~= self.transition_following_state@.subrange(r.0, r.1));
    }

    /// The scratch-buffer pipeline computes the per-state pipeline: the
    /// outputs and destinations of the collected nonempty ranges are
    /// exactly `outputs_of` and `next_actives`.
    proof fn lemma_ranges_pipeline(self, active: Seq<StateIndex>, y: int)
        requires
            self.table_wf(),
            self.valid_states(active),
            0 <= y < self.n_symbols(),
        ensures
            self.outputs_from(self.ranges_of(active, y)) == self.outputs_of(active, y),
            self.dests_from(self.ranges_of(active, y)) == self.next_actives(active, y),
        decreases active.len(),
    {
        if active.len() > 0 {
            assert(self.valid_states(active.drop_last())) by {
                assert(forall|i: int|
                    0 <= i < active.drop_last().len() ==> active.drop_last()[i] == active[i]);
            }
            self.lemma_ranges_pipeline(active.drop_last(), y);
            self.lemma_from_append(
                self.ranges_of(active.drop_last(), y),
                self.state_ranges(active.last().0 as int, y),
            );
            assert(active.last() == active[active.len() - 1]);
            self.lemma_state_ranges(active.last().0 as int, y);
        }
    }

    /// The machine's table holds, for the (state, symbol) pair (`s`, `y`),
    /// exactly the resolved declarations of that pair, in declaration
    /// order.
    pub open spec fn pair_matches(
        self,
        states: Seq<State>,
        transs: Seq<Transition>,
        s: int,
        y: int,
    ) -> bool {
        &&& self.pair_outputs(s, y) == decl_outputs(resolved_decls(states, transs), s, y)
        &&& self.pair_dests(s, y) == decl_dests(resolved_decls(states, transs), s, y)
    }

    /// The machine's whole table is the declarations, grouped by pair.
    pub open spec fn table_matches(self, states: Seq<State>, transs: Seq<Transition>) -> bool {
        forall|s: int, y: int|
            0 <= s < self.n_states() && 0 <= y < self.n_symbols() ==> #[trigger] self.pair_matches(
                states,
                transs,
                s,
                y,
            )
    }

    /// Builds a machine from state declarations, transition declarations,
    /// and the initial active-state configuration, resolving every name to
    /// dense indices and laying the transitions out contiguously by
    /// (state, symbol) pair. Succeeds exactly when every referenced state
    /// name is declared; the active set stays empty until `init`.
    pub fn new(states: Vec<State>, transitions: Vec<Transition>, initial_states: Vec<String>) -> (r:
        Result<StateMachine, MachineError>)
        requires
            states@.len() <= u32::MAX,
            transitions@.len() < u32::MAX,
            states@.len() * (transitions@.len() + 1) <= usize::MAX,
        ensures
            match r {
                Result::Ok(m) => {
                    &&& resolvable(states@, transitions@, initial_states@)
                    &&& m.wf()
                    &&& m.n_states() == states@.len()
                    &&& m.symbols_view() == interned_symbols(transitions@)
                    &&& m.on_enter_view() == states@.map_values(|st: State| st.on_enter)
                    &&& m.on_exit_view() == states@.map_values(|st: State| st.on_exit)
                    &&& m.initial_view() == initial_states@.map_values(
                        |n: String| StateIndex(index_of_first(state_names(states@), n@) as u32),
                    )
                    &&& m.active_view() == Seq::<StateIndex>::empty()
                    &&& m.table_matches(states@, transitions@)
                },
                Result::Err(e) => {
                    &&& e == MachineError::UnknownState
                    &&& !resolvable(states@, transitions@, initial_states@)
                },
            },
    {
        let (names, state_on_enter, state_on_exit) = build_registry(&states);
        let symbols = intern_symbols(&transitions);
        proof {
            lemma_interned_wf(transitions@);
        }
        let resolved = match resolve_transitions(&names, &symbols, &transitions, Ghost(states@)) {
            Result::Ok(v) => v,
            Result::Err(e) => {
                return Result::Err(e);
            },
        };
        let (from_idx, sym_idx, out_cb, to_idx) = resolved;
        let initial = match resolve_initial(&names, &initial_states, Ghost(states@)) {
            Result::Ok(v) => v,
            Result::Err(e) => {
                return Result::Err(e);
            },
        };
        let n_states = states.len();
        let k = symbols.len();
        let ghost rd = resolved_decls(states@, transitions@);
        proof {
            lemma_mul_le(n_states as int, k as int, transitions@.len() as int + 1);
            assert(decls_valid(rd, n_states as int, k as int));
            assert forall|q: int|
                0 <= q < rd.len() implies ((#[trigger] from_idx@[q]) as int) == rd[q].0 && (
            sym_idx@[q] as int) == rd[q].1 by {
                assert(from_idx@[q] as int == rd[q].0);
            }
        }
        let counts = count_pairs(n_states, k, &from_idx, &sym_idx, Ghost(rd));
        let lists = prefix_sums(n_states, k, &counts, Ghost(rd));
        let (transition_output, transition_following_state) = place_decls(
            n_states,
            k,
            &from_idx,
            &sym_idx,
            &out_cb,
            &to_idx,
            &lists,
            &counts,
            Ghost(rd),
        );
        let machine = StateMachine {
            symbols,
            state_on_enter,
            state_on_exit,
            state_transition_lists: lists,
            transition_output,
            transition_following_state,
            initial_states: initial,
            current_states: Vec::new(),
            transition_range_buffer: Vec::new(),
            next_states_buffer: Vec::new(),
        };
        proof {
            let m = machine;
            let nsi = n_states as int;
            let ki = k as int;
            assert(m.n_states() == states@.len());
            assert(m.n_symbols() == ki);
            assert(m.total_transitions() == rd.len());
            assert(m.symbols_view() =~= interned_symbols(transitions@));
            assert(m.symbols@[0] is None) by {
                assert(sym_view(m.symbols@[0]) == interned_symbols(transitions@)[0]);
            }
            assert forall|i: int, j: int|
                0 <= i < j < m.n_symbols() implies #[trigger] m.symbols_view()[i]
                != #[trigger] m.symbols_view()[j] by {
                assert(interned_symbols(transitions@)[i] != interned_symbols(transitions@)[j]);
            }
            assert forall|i: int, j: int|
                0 <= i <= j < m.state_transition_lists@.len() implies #[trigger] m.list_at(i)
                <= #[trigger] m.list_at(j) by {
                assert((lists@[i].0 as int) <= (lists@[j].0 as int));
            }
            assert forall|i: int|
                0 <= i < m.state_transition_lists@.len() implies #[trigger] m.list_at(i)
                <= m.total_transitions() by {
                assert((lists@[i].0 as int) <= rd.len());
            }
            assert forall|i: int|
                0 <= i < m.transition_following_state@.len() implies (
            #[trigger] m.transition_following_state@[i]).0 < m.n_states() by {
                assert((transition_following_state@[i].0 as int) < nsi);
            }
            assert forall|i: int| 0 <= i < m.initial_states@.len() implies (
            #[trigger] m.initial_states@[i]).0 < m.n_states() by {
                assert((initial@[i].0 as int) < state_names(states@).len());
            }
            assert(m.table_wf());
            assert(m.wf());
            assert forall|s: int, y: int|
                0 <= s < m.n_states() && 0 <= y < m.n_symbols() implies #[trigger] m.pair_matches(
                states@,
                transitions@,
                s,
                y,
            ) by {
                assert(pair_span_at(
                    rd,
                    ki,
                    lists@,
                    transition_output@,
                    transition_following_state@,
                    s,
                    y,
                ));
                assert(m.pair_index(s, y) == pair_of(ki, s, y));
                assert(m.range_start(s, y) == lists@[pair_of(ki, s, y)].0 as int);
                assert(m.range_end(s, y) == (if pair_of(ki, s, y) + 1 < lists@.len() {
                    lists@[pair_of(ki, s, y) + 1].0 as int
                } else {
                    rd.len() as int
                }));
            }
            assert(m.initial_view() =~= initial_states@.map_values(
                |n: String| StateIndex(index_of_first(state_names(states@), n@) as u32),
            ));
        }
        Result::Ok(machine)
    }

    /// The transition range of one (state, symbol) pair: the start offset
    /// stored for its linear index, ended by the next stored offset, or by
    /// the table length for the last pair.
    fn transition_range(&self, i_state: StateIndex, i_symbol: SymbolIndex) -> (r: (
        TransitionIndex,
        TransitionIndex,
    ))
        requires
            self.wf(),
            (i_state.0 as int) < self.n_states(),
            (i_symbol.0 as int) < self.n_symbols(),
        ensures
            r.0.0 as int == self.range_start(i_state.0 as int, i_symbol.0 as int),
            r.1.0 as int == self.range_end(i_state.0 as int, i_symbol.0 as int),
            r.0.0 <= r.1.0,
            r.1.0 as int <= self.total_transitions(),
    {
        let n_lists = self.state_transition_lists.len();
        proof {
            lemma_pair_bound(
                self.n_states(),
                self.n_symbols(),
                i_state.0 as int,
                i_symbol.0 as int,
            );
        }
        let transition_list_index: usize = (i_state.0 as usize) * self.symbols.len() + (
        i_symbol.0 as usize);
        let transition_start = self.state_transition_lists[transition_list_index];
        let transition_end = if transition_list_index + 1 < n_lists {
            self.state_transition_lists[transition_list_index + 1]
        } else {
            TransitionIndex(self.transition_output.len() as u32)
        };
        proof {
            let p = transition_list_index as int;
            assert(self.list_at(p) <= self.list_at(p) && self.list_at(p)
                <= self.total_transitions());
            if p + 1 < n_lists {
                assert(self.list_at(p) <= self.list_at(p + 1));
                assert(self.list_at(p + 1) <= self.total_transitions());
            }
        }
        (transition_start, transition_end)
    }

    /// Finds the interned index of a symbol value by scanning the symbol
    /// table; `None` when the symbol was never interned.
    fn lookup_symbol(&self, symb: &Option<String>) -> (r: Option<SymbolIndex>)
        requires
            self.wf(),
        ensures
            match r {
                Option::Some(y) => {
                    &&& (y.0 as int) < self.n_symbols()
                    &&& self.symbols_view()[y.0 as int] == sym_view(*symb)
                    &&& self.has_symbol(sym_view(*symb))
                    &&& self.symbol_index(sym_view(*symb)) == y.0 as int
                },
                Option::None => !self.has_symbol(sym_view(*symb)),
            },
    {
        let n = self.symbols.len();
        let mut i: usize = 0;
        while i < n
            invariant
                self.wf(),
                n == self.n_symbols(),
                0 <= i <= n,
                forall|j: int| 0 <= j < i ==> #[trigger] self.symbols_view()[j] != sym_view(*symb),
            decreases n - i,
        {
            if symbol_eq(&self.symbols[i], symb) {
                proof {
                    let v = sym_view(*symb);
                    assert(self.symbols_view()[i as int] == sym_view(self.symbols@[i as int]));
                    assert(self.has_symbol(v));
                    let c = self.symbol_index(v);
                    assert(0 <= c < self.n_symbols() && self.symbols_view()[c] == v);
                    if c < i as int {
                        assert(self.symbols_view()[c] != self.symbols_view()[i as int]);
                    } else if c > i as int {
                        assert(self.symbols_view()[i as int] != self.symbols_view()[c]);
                    }
                }
                return Option::Some(SymbolIndex(i as u32));
            }
            proof {
                assert(self.symbols_view()[i as int] == sym_view(self.symbols@[i as int]));
            }
            i = i + 1;
        }
        proof {
            assert forall|y: int| 0 <= y < self.n_symbols() implies #[trigger] self.symbols_view()[y]
                != sym_view(*symb) by {}
        }
        Option::None
    }

    /// Advances the machine one tick on `symb` and reports the callbacks
    /// that fire, in order.
    ///
    /// Exactly when the symbol was interned, the step succeeds: every
    /// active occurrence's exit callback fires first, in active-set order;
    /// then every matching transition's output, empty-symbol transitions
    /// before the input symbol's for each state; then the enter callback of
    /// every destination, in the same order; and the destinations replace
    /// the active set wholesale, duplicates included. An unknown symbol
    /// fails with `UnknownSymbol` and leaves the machine unchanged.
    pub fn step(&mut self, symb: Option<String>) -> (r: Result<Vec<CallbackIndex>, MachineError>)
        requires
            old(self).wf(),
        ensures
            final(self).wf(),
            final(self).same_engine(*old(self)),
            match r {
                Result::Ok(log) => {
                    &&& old(self).has_symbol(sym_view(symb))
                    &&& log@ == old(self).step_log(
                        old(self).active_view(),
                        old(self).symbol_index(sym_view(symb)),
                    )
                    &&& final(self).active_view() == old(self).next_actives(
                        old(self).active_view(),
                        old(self).symbol_index(sym_view(symb)),
                    )
                },
                Result::Err(e) => {
                    &&& e == MachineError::UnknownSymbol
                    &&& !old(self).has_symbol(sym_view(symb))
                    &&& final(self).active_view() == old(self).active_view()
                },
            },
    {
        let i_symbol = match self.lookup_symbol(&symb) {
            Option::Some(found) => found,
            Option::None => {
                return Result::Err(MachineError::UnknownSymbol);
            },
        };
        let ghost y: int = i_symbol.0 as int;
        let ghost active: Seq<StateIndex> = self.current_states@;
        let ghost rs: Seq<(int, int)> = old(self).ranges_of(active, y);

        self.transition_range_buffer.clear();
        self.next_states_buffer.clear();
        let mut log: Vec<CallbackIndex> = Vec::new();
        proof {
            StateMachine::lemma_same_engine_table_wf(*old(self), *self);
            assert(active.take(0) =~= Seq::<StateIndex>::empty());
            assert(old(self).exits_of(Seq::<StateIndex>::empty()) == Seq::<CallbackIndex>::empty());
            assert(old(self).ranges_of(Seq::<StateIndex>::empty(), y) == Seq::<(int, int)>::empty());
        }

        let n_active = self.current_states.len();
        let mut i: usize = 0;
        while i < n_active
            invariant
                old(self).wf(),
                self.wf(),
                self.same_engine(*old(self)),
                self.current_states == old(self).current_states,
                self.next_states_buffer@ == Seq::<StateIndex>::empty(),
                active == self.current_states@,
                n_active == active.len(),
                0 <= i <= n_active,
                i_symbol.0 as int == y,
                0 <= y < old(self).n_symbols(),
                log@ == old(self).exits_of(active.take(i as int)),
                self.transition_range_buffer@.len() == old(self).ranges_of(
                    active.take(i as int),
                    y,
                ).len(),
                forall|j: int|
                    0 <= j < self.transition_range_buffer@.len() ==> {
                        let rsi = old(self).ranges_of(active.take(i as int), y);
                        &&& ((#[trigger] self.transition_range_buffer@[j]).0.0 as int) == rsi[j].0
                        &&& (self.transition_range_buffer@[j].1.0 as int) == rsi[j].1
                        &&& 0 <= rsi[j].0 <= rsi[j].1 <= old(self).total_transitions()
                    },
            decreases n_active - i,
        {
            let ghost pre = *self;
            let i_state = self.current_states[i];
            proof {
                assert(active[i as int].0 < self.n_states());
                assert(self.state_on_exit@.len() == self.n_states());
            }
            log.push(self.state_on_exit[i_state.0 as usize]);
            let empty_symbol_range = self.transition_range(i_state, SymbolIndex(0));
            let symbol_range = self.transition_range(i_state, i_symbol);
            if empty_symbol_range.0.0 != empty_symbol_range.1.0 {
                self.transition_range_buffer.push(empty_symbol_range);
            }
            if symbol_range.0.0 != symbol_range.1.0 {
                self.transition_range_buffer.push(symbol_range);
            }
            proof {
                let s = i_state.0 as int;
                assert(pre.range_start(s, 0) == old(self).range_start(s, 0));
                assert(pre.range_end(s, 0) == old(self).range_end(s, 0));
                assert(pre.range_start(s, y) == old(self).range_start(s, y));
                assert(pre.range_end(s, y) == old(self).range_end(s, y));
                assert(pre.total_transitions() == old(self).total_transitions());
                assert(active.take(i + 1).drop_last() =~= active.take(i as int));
                assert(active.take(i + 1).last() == active[i as int]);
                assert(old(self).exits_of(active.take(i + 1)) == old(self).exits_of(
                    active.take(i as int),
                ).push(old(self).on_exit_view()[s]));
                let rsi = old(self).ranges_of(active.take(i as int), y);
                let rsn = old(self).ranges_of(active.take(i + 1), y);
                let sr = old(self).state_ranges(s, y);
                assert(rsn == rsi + sr);
                assert forall|q: int| 0 <= q < self.transition_range_buffer@.len() implies {
                    &&& ((#[trigger] self.transition_range_buffer@[q]).0.0 as int) == rsn[q].0
                    &&& (self.transition_range_buffer@[q].1.0 as int) == rsn[q].1
                    &&& 0 <= rsn[q].0 <= rsn[q].1 <= old(self).total_transitions()
                } by {
                    if q < pre.transition_range_buffer@.len() {
                        assert(self.transition_range_buffer@[q]
                            == pre.transition_range_buffer@[q]);
                        assert(rsn[q] == rsi[q]);
                    } else {
                        assert(rsn[q] == sr[q - rsi.len()]);
                    }
                }
                StateMachine::lemma_same_engine_table_wf(*old(self), *self);
            }
            i = i + 1;
        }
        proof {
            assert(active.take(n_active as int) =~= active);
            assert(rs.take(0) =~= Seq::<(int, int)>::empty());
            assert(old(self).outputs_from(Seq::<(int, int)>::empty())
                == Seq::<CallbackIndex>::empty());
            assert(log@ =~= old(self).exits_of(active) + old(self).outputs_from(rs.take(0)));
        }

        let n_ranges = self.transition_range_buffer.len();
        let mut j: usize = 0;
        while j < n_ranges
            invariant
                old(self).wf(),
                self.wf(),
                self.same_engine(*old(self)),
                self.current_states == old(self).current_states,
                n_ranges == rs.len(),
                0 <= j <= n_ranges,
                n_ranges == self.transition_range_buffer@.len(),
                forall|q: int|
                    0 <= q < rs.len() ==> {
                        &&& ((#[trigger] self.transition_range_buffer@[q]).0.0 as int) == rs[q].0
                        &&& (self.transition_range_buffer@[q].1.0 as int) == rs[q].1
                        &&& 0 <= rs[q].0 <= rs[q].1 <= old(self).total_transitions()
                    },
                log@ == old(self).exits_of(active) + old(self).outputs_from(rs.take(j as int)),
            decreases n_ranges - j,
        {
            let range = self.transition_range_buffer[j];
            let start: usize = range.0.0 as usize;
            let end: usize = range.1.0 as usize;
            let mut t: usize = start;
            while t < end
                invariant
                    old(self).wf(),
                    self.wf(),
                    self.same_engine(*old(self)),
                    self.current_states == old(self).current_states,
                    0 <= j < rs.len(),
                    start as int == rs[j as int].0,
                    end as int == rs[j as int].1,
                    start <= t <= end,
                    end as int <= old(self).total_transitions(),
                    log@ == old(self).exits_of(active) + old(self).outputs_from(
                        rs.take(j as int),
                    ) + old(self).transition_output@.subrange(start as int, t as int),
                decreases end - t,
            {
                log.push(self.transition_output[t]);
                t = t + 1;
                proof {
                    assert(old(self).transition_output@.subrange(start as int, t as int)
                        =~= old(self).transition_output@.subrange(start as int, t - 1).push(
                        old(self).transition_output@[t - 1],
                    ));
                    assert(log@ =~= old(self).exits_of(active) + old(self).outputs_from(
                        rs.take(j as int),
                    ) + old(self).transition_output@.subrange(start as int, t as int));
                }
            }
            proof {
                assert(rs.take(j + 1).drop_last() =~= rs.take(j as int));
                assert(rs.take(j + 1).last() == rs[j as int]);
                assert(old(self).outputs_from(rs.take(j + 1)) == old(self).outputs_from(
                    rs.take(j as int),
                ) + old(self).transition_output@.subrange(rs[j as int].0, rs[j as int].1));
                assert(log@ =~= old(self).exits_of(active) + old(self).outputs_from(
                    rs.take(j + 1),
                ));
            }
            j = j + 1;
        }
        proof {
            assert(rs.take(n_ranges as int) =~= rs);
            assert(old(self).dests_from(Seq::<(int, int)>::empty()) == Seq::<StateIndex>::empty());
            assert(self.next_states_buffer@ =~= old(self).dests_from(rs.take(0)));
        }

        let mut j2: usize = 0;
        while j2 < n_ranges
            invariant
                old(self).wf(),
                self.wf(),
                self.same_engine(*old(self)),
                self.current_states == old(self).current_states,
                n_ranges == rs.len(),
                0 <= j2 <= n_ranges,
                n_ranges == self.transition_range_buffer@.len(),
                forall|q: int|
                    0 <= q < rs.len() ==> {
                        &&& ((#[trigger] self.transition_range_buffer@[q]).0.0 as int) == rs[q].0
                        &&& (self.transition_range_buffer@[q].1.0 as int) == rs[q].1
                        &&& 0 <= rs[q].0 <= rs[q].1 <= old(self).total_transitions()
                    },
                self.next_states_buffer@ == old(self).dests_from(rs.take(j2 as int)),
                old(self).valid_states(self.next_states_buffer@),
            decreases n_ranges - j2,
        {
            let range = self.transition_range_buffer[j2];
            let start: usize = range.0.0 as usize;
            let end: usize = range.1.0 as usize;
            let mut t: usize = start;
            while t < end
                invariant
                    old(self).wf(),
                    self.wf(),
                    self.same_engine(*old(self)),
                    self.current_states == old(self).current_states,
                    n_ranges == rs.len(),
                    n_ranges == self.transition_range_buffer@.len(),
                    forall|q: int|
                        0 <= q < rs.len() ==> {
                            &&& ((#[trigger] self.transition_range_buffer@[q]).0.0 as int)
                                == rs[q].0
                            &&& (self.transition_range_buffer@[q].1.0 as int) == rs[q].1
                            &&& 0 <= rs[q].0 <= rs[q].1 <= old(self).total_transitions()
                        },
                    0 <= j2 < rs.len(),
                    start as int == rs[j2 as int].0,
                    end as int == rs[j2 as int].1,
                    start <= t <= end,
                    end as int <= old(self).total_transitions(),
                    self.next_states_buffer@ == old(self).dests_from(rs.take(j2 as int)) + old(
                        self,
                    ).transition_following_state@.subrange(start as int, t as int),
                    old(self).valid_states(self.next_states_buffer@),
                decreases end - t,
            {
                let ghost pre = *self;
                let dest = self.transition_following_state[t];
                self.next_states_buffer.push(dest);
                t = t + 1;
                proof {
                    assert(old(self).transition_following_state@.subrange(start as int, t as int)
                        =~= old(self).transition_following_state@.subrange(start as int, t - 1).push(
                        old(self).transition_following_state@[t - 1],
                    ));
                    assert(self.next_states_buffer@ =~= old(self).dests_from(rs.take(j2 as int))
                        + old(self).transition_following_state@.subrange(start as int, t as int));
                    assert(old(self).transition_following_state@[t - 1].0 < old(self).n_states());
                    StateMachine::lemma_same_engine_table_wf(*old(self), *self);
                }
            }
            proof {
                assert(rs.take(j2 + 1).drop_last() =~= rs.take(j2 as int));
                assert(rs.take(j2 + 1).last() == rs[j2 as int]);
                assert(old(self).dests_from(rs.take(j2 + 1)) == old(self).dests_from(
                    rs.take(j2 as int),
                ) + old(self).transition_following_state@.subrange(rs[j2 as int].0, rs[j2 as int].1));
                assert(self.next_states_buffer@ =~= old(self).dests_from(rs.take(j2 + 1)));
            }
            j2 = j2 + 1;
        }
        let ghost next: Seq<StateIndex> = old(self).dests_from(rs);

        let n_next = self.next_states_buffer.len();
        let mut k: usize = 0;
        while k < n_next
            invariant
                old(self).wf(),
                self.wf(),
                self.same_engine(*old(self)),
                self.current_states == old(self).current_states,
                n_next == next.len(),
                0 <= k <= n_next,
                self.next_states_buffer@ == next,
                old(self).valid_states(next),
                log@ == old(self).exits_of(active) + old(self).outputs_from(rs) + old(
                    self,
                ).enters_of(next.take(k as int)),
            decreases n_next - k,
        {
            let entered = self.next_states_buffer[k];
            proof {
                assert(next[k as int].0 < old(self).n_states());
                assert(self.state_on_enter@.len() == self.n_states());
            }
            log.push(self.state_on_enter[entered.0 as usize]);
            proof {
                assert(next.take(k + 1).drop_last() =~= next.take(k as int));
                assert(next.take(k + 1).last() == next[k as int]);
                assert(old(self).enters_of(next.take(k + 1)) == old(self).enters_of(
                    next.take(k as int),
                ).push(old(self).on_enter_view()[next[k as int].0 as int]));
                assert(log@ =~= old(self).exits_of(active) + old(self).outputs_from(rs) + old(
                    self,
                ).enters_of(next.take(k + 1)));
            }
            k = k + 1;
        }
        proof {
            assert(next.take(n_next as int) =~= next);
        }

        core::mem::swap(&mut self.current_states, &mut self.next_states_buffer);
        proof {
            StateMachine::lemma_ranges_pipeline(*old(self), active, y);
            assert(log@ == old(self).step_log(active, y));
            assert(self.current_states@ == old(self).next_actives(active, y));
            StateMachine::lemma_same_engine_table_wf(*old(self), *self);
        }
        Result::Ok(log)
    }

    /// The exit log has exactly one entry per active occurrence.
    proof fn lemma_exits_len(self, a: Seq<StateIndex>)
        ensures
            self.exits_of(a).len() == a.len(),
        decreases a.len(),
    {
        if a.len() > 0 {
            self.lemma_exits_len(a.drop_last());
        }
    }

    /// The step pipeline distributes over appending active sequences.
    proof fn lemma_pipeline_append(self, a: Seq<StateIndex>, b: Seq<StateIndex>, y: int)
        ensures
            self.exits_of(a + b) == self.exits_of(a) + self.exits_of(b),
            self.outputs_of(a + b, y) == self.outputs_of(a, y) + self.outputs_of(b, y),
            self.next_actives(a + b, y) == self.next_actives(a, y) + self.next_actives(b, y),
        decreases b.len(),
    {
        if b.len() == 0 {
            assert(a + b =~= a);
            assert(self.exits_of(a) + self.exits_of(b) =~= self.exits_of(a));
            assert(self.outputs_of(a, y) + self.outputs_of(b, y) =~= self.outputs_of(a, y));
            assert(self.next_actives(a, y) + self.next_actives(b, y) =~= self.next_actives(a, y));
        } else {
            self.lemma_pipeline_append(a, b.drop_last(), y);
            assert((a + b).drop_last() =~= a + b.drop_last());
            assert((a + b).last() == b.last());
            assert(self.exits_of(a) + self.exits_of(b) =~= (self.exits_of(a) + self.exits_of(
                b.drop_last(),
            )).push(self.on_exit_view()[b.last().0 as int]));
            assert(self.outputs_of(a, y) + self.outputs_of(b, y) =~= self.outputs_of(a, y)
                + self.outputs_of(b.drop_last(), y) + self.state_outputs(b.last().0 as int, y));
            assert(self.next_actives(a, y) + self.next_actives(b, y) =~= self.next_actives(a, y)
                + self.next_actives(b.drop_last(), y) + self.state_dests(b.last().0 as int, y));
        }
    }

    /// What one active occurrence contributes to a step: within the whole
    /// step's outputs and successors, occurrence `i` of the active set
    /// contributes exactly its state's empty-symbol transitions followed
    /// by its input-symbol transitions — the empty-symbol transitions fire
    /// on every step, whatever the input — and its exit callback fires
    /// once, at its position.
    pub proof fn lemma_step_contribution(self, active: Seq<StateIndex>, y: int, i: int)
        requires
            0 <= i < active.len(),
        ensures
            self.exits_of(active).len() == active.len(),
            self.exits_of(active)[i] == self.on_exit_view()[active[i].0 as int],
            self.outputs_of(active, y) == self.outputs_of(active.take(i), y) + (self.pair_outputs(
                active[i].0 as int,
                0,
            ) + self.pair_outputs(active[i].0 as int, y)) + self.outputs_of(
                active.skip(i + 1),
                y,
            ),
            self.next_actives(active, y) == self.next_actives(active.take(i), y) + (self.pair_dests(
                active[i].0 as int,
                0,
            ) + self.pair_dests(active[i].0 as int, y)) + self.next_actives(
                active.skip(i + 1),
                y,
            ),
    {
        let s = active[i];
        let mid: Seq<StateIndex> = seq![s];
        assert(active =~= active.take(i) + (mid + active.skip(i + 1)));
        self.lemma_pipeline_append(active.take(i), mid + active.skip(i + 1), y);
        self.lemma_pipeline_append(mid, active.skip(i + 1), y);
        assert(mid.drop_last() =~= Seq::<StateIndex>::empty());
        assert(mid.last() == s);
        assert(self.exits_of(Seq::<StateIndex>::empty()) == Seq::<CallbackIndex>::empty());
        assert(self.outputs_of(Seq::<StateIndex>::empty(), y) == Seq::<CallbackIndex>::empty());
        assert(self.next_actives(Seq::<StateIndex>::empty(), y) == Seq::<StateIndex>::empty());
        assert(self.exits_of(mid) =~= seq![self.on_exit_view()[s.0 as int]]);
        assert(self.outputs_of(mid, y) =~= self.state_outputs(s.0 as int, y));
        assert(self.next_actives(mid, y) =~= self.state_dests(s.0 as int, y));
        self.lemma_exits_len(active.take(i));
        self.lemma_exits_len(active);
        assert(self.exits_of(active)[i] == self.on_exit_view()[s.0 as int]);
        assert(self.outputs_of(active, y) =~= self.outputs_of(active.take(i), y) + (
        self.pair_outputs(active[i].0 as int, 0) + self.pair_outputs(active[i].0 as int, y))
            + self.outputs_of(active.skip(i + 1), y));
        assert(self.next_actives(active, y) =~= self.next_actives(active.take(i), y) + (
        self.pair_dests(active[i].0 as int, 0) + self.pair_dests(active[i].0 as int, y))
            + self.next_actives(active.skip(i + 1), y));
    }

    /// An active state with no transitions for the empty symbol nor for
    /// the input symbol still has its exit callback fired, once for that
    /// occurrence and at its position, and contributes no output and no
    /// successor: the step behaves as if the occurrence were absent,
    /// except for the exit callback.
    pub proof fn lemma_isolated_state(self, active: Seq<StateIndex>, y: int, i: int)
        requires
            self.wf(),
            self.valid_states(active),
            0 <= y < self.n_symbols(),
            0 <= i < active.len(),
            self.range_start(active[i].0 as int, 0) == self.range_end(active[i].0 as int, 0),
            self.range_start(active[i].0 as int, y) == self.range_end(active[i].0 as int, y),
        ensures
            self.exits_of(active).len() == active.len(),
            self.exits_of(active)[i] == self.on_exit_view()[active[i].0 as int],
            self.outputs_of(active, y) == self.outputs_of(active.take(i) + active.skip(i + 1), y),
            self.next_actives(active, y) == self.next_actives(
                active.take(i) + active.skip(i + 1),
                y,
            ),
    {
        let s = active[i].0 as int;
        self.lemma_step_contribution(active, y, i);
        self.lemma_pipeline_append(active.take(i), active.skip(i + 1), y);
        lemma_pair_bound(self.n_states(), self.n_symbols(), s, 0);
        lemma_pair_bound(self.n_states(), self.n_symbols(), s, y);
        assert(self.list_at(self.pair_index(s, 0)) <= self.total_transitions());
        assert(self.list_at(self.pair_index(s, y)) <= self.total_transitions());
        assert(0 <= self.range_start(s, 0) <= self.total_transitions());
        assert(0 <= self.range_start(s, y) <= self.total_transitions());
        assert(self.pair_outputs(s, 0) =~= Seq::<CallbackIndex>::empty());
        assert(self.pair_outputs(s, y) =~= Seq::<CallbackIndex>::empty());
        assert(self.pair_dests(s, 0) =~= Seq::<StateIndex>::empty());
        assert(self.pair_dests(s, y) =~= Seq::<StateIndex>::empty());
        assert(self.outputs_of(active, y) =~= self.outputs_of(active.take(i), y)
            + self.outputs_of(active.skip(i + 1), y));
        assert(self.next_actives(active, y) =~= self.next_actives(active.take(i), y)
            + self.next_actives(active.skip(i + 1), y));
    }

    /// The engine — symbols, tables, callback slots, and the configured
    /// initial set — survives every step: `step` ensures `same_engine`
    /// between the old and new machine, so after any sequence of `step`
    /// calls, `rewind` restores the active set to exactly the originally
    /// configured initial sequence, duplicates included.
    pub proof fn lemma_same_engine_keeps_initial(pre: Self, post: Self)
        requires
            post.same_engine(pre),
        ensures
            post.initial_view() == pre.initial_view(),
    {
    }

    /// The current active-state set, in order, duplicates included.
    pub fn active_states(&self) -> (r: &Vec<StateIndex>)
        ensures
            r@ == self.active_view(),
    {
        &self.current_states
    }

    /// Resets the active-state set to the configured initial set.
    pub fn init(&mut self)
        ensures
            final(self).same_engine(*old(self)),
            final(self).active_view() == old(self).initial_view(),
            old(self).wf() ==> final(self).wf(),
    {
        self.current_states = self.initial_states.clone();
        proof {
            if old(self).wf() {
                Self::lemma_same_engine_table_wf(*old(self), *self);
                assert(self.current_states@ =~= self.initial_states@);
                assert forall|i: int| 0 <= i < self.current_states@.len() implies (
                #[trigger] self.current_states@[i]).0 < self.n_states() by {
                    assert(old(self).initial_states@[i].0 < old(self).n_states());
                }
            }
        }
    }

    /// Resets the active-state set to the configured initial set, without
    /// re-resolving any name: for all valid machines, after any sequence of
    /// `step` calls this restores exactly the configured initial sequence,
    /// duplicates included.
    pub fn rewind(&mut self)
        ensures
            final(self).same_engine(*old(self)),
            final(self).active_view() == old(self).initial_view(),
            old(self).wf() ==> final(self).wf(),
    {
        self.current_states = self.initial_states.clone();
        proof {
            if old(self).wf() {
                Self::lemma_same_engine_table_wf(*old(self), *self);
                assert(self.current_states@ =~= self.initial_states@);
                assert forall|i: int| 0 <= i < self.current_states@.len() implies (
                #[trigger] self.current_states@[i]).0 < self.n_states() by {
                    assert(old(self).initial_states@[i].0 < old(self).n_states());
                }
            }
        }
    }
}

} // verus!
