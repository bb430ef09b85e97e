//! The binding classifier: splits the active mode's bindings into the
//! mode-exclusive and the shared bucket, and orders each bucket
//! deterministically.

use vstd::prelude::*;
use crate::keys::{Key, key_eq, key_matches, key_text, key_canonical_text};
use crate::text::{lex_le, str_le, lemma_lex_le_total, lemma_lex_le_transitive,
    lemma_lex_le_antisymmetric};
use crate::tokens::{sequence_tokens, flatten_tokens, tokens_for, flat_for};

verus! {

broadcast use vstd::seq_lib::group_to_multiset_ensures, Seq::lemma_filter_push;

/// One keybinding: a key and the canonical text of its action sequence.
pub struct Binding {
    pub key: Key,
    pub actions: String,
}

/// One mode's named binding list.
pub struct ModeBindings {
    pub mode: String,
    pub bindings: Vec<Binding>,
}

/// Structural equality of bindings: same key and same action text.
pub open spec fn binding_eq(a: Binding, b: Binding) -> bool {
    key_eq(a.key, b.key) && a.actions@ == b.actions@
}

/// Decides `binding_eq`.
pub fn binding_matches(a: &Binding, b: &Binding) -> (r: bool)
    ensures
        r == binding_eq(*a, *b),
{
    key_matches(&a.key, &b.key) && a.actions == b.actions
}

/// An equal copy of a key.
pub fn copy_key(k: &Key) -> (r: Key)
    ensures
        r == *k,
{
    match k {
        Key::Ctrl(c) => Key::Ctrl(*c),
        Key::Alt(c) => Key::Alt(*c),
        Key::Char(c) => Key::Char(*c),
        Key::Named(n) => Key::Named(n.clone()),
    }
}

/// An equal copy of a binding.
pub fn copy_binding(b: &Binding) -> (r: Binding)
    ensures
        r == *b,
{
    Binding { key: copy_key(&b.key), actions: b.actions.clone() }
}

/// Whether the mode's list holds a binding equal to `b`.
pub open spec fn mode_has(m: ModeBindings, b: Binding) -> bool {
    exists|i: int| 0 <= i < m.bindings@.len() && binding_eq(m.bindings@[i], b)
}

/// Decides `mode_has`.
fn mode_contains(m: &ModeBindings, b: &Binding) -> (r: bool)
    ensures
        r == mode_has(*m, *b),
{
    let mut i: usize = 0;
    while i < m.bindings.len()
        invariant
            i <= m.bindings@.len(),
            forall|j: int| 0 <= j < i ==> !binding_eq(m.bindings@[j], *b),
        decreases m.bindings@.len() - i,
    {
        if binding_matches(&m.bindings[i], b) {
            return true;
        }
        i = i + 1;
    }
    false
}

/// How many entries of the keybind table belong to a mode other than the
/// active one and bind `b` identically.
pub open spec fn other_mode_count(kb: Seq<ModeBindings>, active: Seq<char>, b: Binding) -> int
    decreases kb.len(),
{
    if kb.len() == 0 {
        0
    } else {
        other_mode_count(kb.drop_last(), active, b) + (if kb.last().mode@ != active && mode_has(
            kb.last(),
            b,
        ) {
            1int
        } else {
            0int
        })
    }
}

/// A binding of the active mode is shared exactly when it reappears, with
/// the same key and the same actions, in more than one other mode.
pub open spec fn is_shared(kb: Seq<ModeBindings>, active: Seq<char>, b: Binding) -> bool {
    other_mode_count(kb, active, b) > 1
}

/// Counts the other modes that bind `b` identically.
fn count_other_modes(kb: &Vec<ModeBindings>, active: &String, b: &Binding) -> (r: usize)
    ensures
        r as int == other_mode_count(kb@, active@, *b),
{
    let mut n: usize = 0;
    let mut i: usize = 0;
    while i < kb.len()
        invariant
            i <= kb@.len(),
            n <= i,
            n as int == other_mode_count(kb@.subrange(0, i as int), active@, *b),
        decreases kb@.len() - i,
    {
        let ghost pre = kb@.subrange(0, i as int + 1);
        proof {
            assert(pre.drop_last() =~= kb@.subrange(0, i as int));
            assert(pre.last() == kb@[i as int]);
        }
        let differs = !(kb[i].mode == *active);
        if differs && mode_contains(&kb[i], b) {
            n = n + 1;
        }
        i = i + 1;
    }
    proof {
        assert(kb@.subrange(0, kb@.len() as int) =~= kb@);
    }
    n
}

/// The bindings of the active mode, in table order: every entry whose mode
/// name equals the active mode contributes its bindings in order.
pub open spec fn active_bindings(kb: Seq<ModeBindings>, active: Seq<char>) -> Seq<Binding>
    decreases kb.len(),
{
    if kb.len() == 0 {
        Seq::<Binding>::empty()
    } else {
        active_bindings(kb.drop_last(), active) + (if kb.last().mode@ == active {
            kb.last().bindings@
        } else {
            Seq::<Binding>::empty()
        })
    }
}

/// Splits the active mode's bindings into the exclusive and the shared
/// bucket. A binding goes to the shared bucket exactly when more than one
/// *other* mode binds the same key to the same actions; bound identically
/// in zero or one other mode, it stays in the mode's own bucket. Order is
/// preserved within each bucket.
pub fn classify(kb: &Vec<ModeBindings>, active: &String) -> (r: (Vec<Binding>, Vec<Binding>))
    ensures
        r.0@ == active_bindings(kb@, active@).filter(
            |b: Binding| !is_shared(kb@, active@, b),
        ),
        r.1@ == active_bindings(kb@, active@).filter(|b: Binding| is_shared(kb@, active@, b)),
{
    let ghost excl_pred = |b: Binding| !is_shared(kb@, active@, b);
    let ghost shared_pred = |b: Binding| is_shared(kb@, active@, b);
    let mut excl: Vec<Binding> = Vec::new();
    let mut shared: Vec<Binding> = Vec::new();
    let mut m: usize = 0;
    proof {
        assert(active_bindings(kb@.subrange(0, 0), active@) =~= Seq::<Binding>::empty());
        assert(Seq::<Binding>::empty().filter(excl_pred) =~= Seq::<Binding>::empty());
        assert(Seq::<Binding>::empty().filter(shared_pred) =~= Seq::<Binding>::empty());
    }
    while m < kb.len()
        invariant
            m <= kb@.len(),
            excl_pred == (|b: Binding| !is_shared(kb@, active@, b)),
            shared_pred == (|b: Binding| is_shared(kb@, active@, b)),
            excl@ == active_bindings(kb@.subrange(0, m as int), active@).filter(excl_pred),
            shared@ == active_bindings(kb@.subrange(0, m as int), active@).filter(shared_pred),
        decreases kb@.len() - m,
    {
        let ghost pre = kb@.subrange(0, m as int);
        let ghost entry = kb@[m as int];
        if kb[m].mode == *active {
            let ghost before = active_bindings(pre, active@);
            let mut j: usize = 0;
            while j < kb[m].bindings.len()
                invariant
                    m < kb@.len(),
                    j <= kb@[m as int].bindings@.len(),
                    entry == kb@[m as int],
                    entry.mode@ == active@,
                    before == active_bindings(kb@.subrange(0, m as int), active@),
                    excl_pred == (|b: Binding| !is_shared(kb@, active@, b)),
                    shared_pred == (|b: Binding| is_shared(kb@, active@, b)),
                    excl@ == (before + entry.bindings@.subrange(0, j as int)).filter(excl_pred),
                    shared@ == (before + entry.bindings@.subrange(0, j as int)).filter(
                        shared_pred,
                    ),
                decreases kb@[m as int].bindings@.len() - j,
            {
                let b = copy_binding(&kb[m].bindings[j]);
                let cnt = count_other_modes(kb, active, &b);
                let ghost grown = before + entry.bindings@.subrange(0, j as int + 1);
                proof {
                    let sofar = before + entry.bindings@.subrange(0, j as int);
                    assert(grown =~= sofar.push(entry.bindings@[j as int]));
                    assert(grown.drop_last() =~= sofar);
                    assert(grown.last() == entry.bindings@[j as int]);
                }
                let ghost sofar = before + entry.bindings@.subrange(0, j as int);
                proof {
                    sofar.lemma_filter_push(entry.bindings@[j as int], shared_pred);
                    sofar.lemma_filter_push(entry.bindings@[j as int], excl_pred);
                    assert(grown == sofar.push(entry.bindings@[j as int]));
                }
                if cnt > 1 {
                    shared.push(b);
                    proof {
                        assert(is_shared(kb@, active@, entry.bindings@[j as int]));
                        assert(grown.filter(shared_pred) == sofar.filter(shared_pred).push(
                            entry.bindings@[j as int],
                        ));
                        assert(grown.filter(excl_pred) == sofar.filter(excl_pred));
                    }
                } else {
                    excl.push(b);
                    proof {
                        assert(!is_shared(kb@, active@, entry.bindings@[j as int]));
                        assert(grown.filter(excl_pred) == sofar.filter(excl_pred).push(
                            entry.bindings@[j as int],
                        ));
                        assert(grown.filter(shared_pred) == sofar.filter(shared_pred));
                    }
                }
                j = j + 1;
            }
            proof {
                assert(entry.bindings@.subrange(0, entry.bindings@.len() as int)
                    =~= entry.bindings@);
                assert(kb@.subrange(0, m as int + 1).drop_last() =~= pre);
                assert(kb@.subrange(0, m as int + 1).last() == entry);
                assert(active_bindings(kb@.subrange(0, m as int + 1), active@) =~= before
                    + entry.bindings@);
            }
        } else {
            proof {
                assert(kb@.subrange(0, m as int + 1).drop_last() =~= pre);
                assert(kb@.subrange(0, m as int + 1).last() == entry);
                assert(active_bindings(kb@.subrange(0, m as int + 1), active@)
                    =~= active_bindings(pre, active@));
            }
        }
        m = m + 1;
    }
    proof {
        assert(kb@.subrange(0, kb@.len() as int) =~= kb@);
    }
    (excl, shared)
}

/// One pane row ready for ordering: a binding together with the flattened
/// display text of its action tokens, the primary sort key.
pub struct RankedBinding {
    pub binding: Binding,
    pub flat: String,
}

/// An equal copy of a ranked row.
fn copy_ranked(x: &RankedBinding) -> (r: RankedBinding)
    ensures
        r == *x,
{
    RankedBinding { binding: copy_binding(&x.binding), flat: x.flat.clone() }
}

/// Whether `ra` ranks exactly the bindings `bs`, in order: each row keeps
/// its binding and carries the flattened token text of that binding's
/// actions.
pub open spec fn ranked_over(bs: Seq<Binding>, ra: Seq<RankedBinding>) -> bool {
    &&& ra.len() == bs.len()
    &&& forall|i: int|
        0 <= i < bs.len() ==> (#[trigger] ra[i]).binding == bs[i] && flat_for(
            bs[i].actions@,
            ra[i].flat@,
        )
}

/// Attaches to each binding the flattened display text of its action
/// tokens, the primary sort key of spec 4.4's row order.
pub fn rank_bindings(v: &Vec<Binding>) -> (r: Vec<RankedBinding>)
    ensures
        ranked_over(v@, r@),
{
    let mut r: Vec<RankedBinding> = Vec::new();
    let mut i: usize = 0;
    while i < v.len()
        invariant
            i <= v@.len(),
            r@.len() == i,
            forall|j: int|
                0 <= j < i ==> (#[trigger] r@[j]).binding == v@[j] && flat_for(
                    v@[j].actions@,
                    r@[j].flat@,
                ),
        decreases v@.len() - i,
    {
        let ts = sequence_tokens(v[i].actions.as_str());
        let flat = flatten_tokens(&ts);
        let rb = RankedBinding { binding: copy_binding(&v[i]), flat };
        proof {
            assert(tokens_for(v@[i as int].actions@, ts@));
            assert(flat_for(v@[i as int].actions@, rb.flat@));
        }
        r.push(rb);
        i = i + 1;
    }
    r
}

/// The bindings of a ranked row list, in order.
pub fn pane_of(v: &Vec<RankedBinding>) -> (r: Vec<Binding>)
    ensures
        r@ == v@.map_values(|x: RankedBinding| x.binding),
{
    let mut r: Vec<Binding> = Vec::new();
    let mut i: usize = 0;
    while i < v.len()
        invariant
            i <= v@.len(),
            r@ == v@.subrange(0, i as int).map_values(|x: RankedBinding| x.binding),
        decreases v@.len() - i,
    {
        r.push(copy_binding(&v[i].binding));
        proof {
            assert(r@ =~= v@.subrange(0, i as int + 1).map_values(
                |x: RankedBinding| x.binding,
            ));
        }
        i = i + 1;
    }
    proof {
        assert(v@.subrange(0, v@.len() as int) =~= v@);
    }
    r
}

/// Classifies the active mode's bindings and orders each bucket by the
/// flattened token text of the actions, then by the key's text: each pane
/// is the sorted ranking of the corresponding filter of the active mode's
/// bindings, with the ranking dropped again.
pub fn classified_rows(kb: &Vec<ModeBindings>, active: &String) -> (r: (Vec<Binding>, Vec<Binding>))
    ensures
        exists|ra: Seq<RankedBinding>|
            ranked_over(
                active_bindings(kb@, active@).filter(|b: Binding| !is_shared(kb@, active@, b)),
                ra,
            ) && r.0@ == (#[trigger] sort_spec(ra)).map_values(|x: RankedBinding| x.binding)
                && sorted_rows(sort_spec(ra)),
        exists|ra: Seq<RankedBinding>|
            ranked_over(
                active_bindings(kb@, active@).filter(|b: Binding| is_shared(kb@, active@, b)),
                ra,
            ) && r.1@ == (#[trigger] sort_spec(ra)).map_values(|x: RankedBinding| x.binding)
                && sorted_rows(sort_spec(ra)),
{
    let (excl, shared) = classify(kb, active);
    let excl_ranked = rank_bindings(&excl);
    let shared_ranked = rank_bindings(&shared);
    let excl_sorted = sort_rows(&excl_ranked);
    let shared_sorted = sort_rows(&shared_ranked);
    let r0 = pane_of(&excl_sorted);
    let r1 = pane_of(&shared_sorted);
    proof {
        assert(ranked_over(
            active_bindings(kb@, active@).filter(|b: Binding| !is_shared(kb@, active@, b)),
            excl_ranked@,
        ));
        assert(ranked_over(
            active_bindings(kb@, active@).filter(|b: Binding| is_shared(kb@, active@, b)),
            shared_ranked@,
        ));
    }
    (r0, r1)
}

/// The row order: by the action sequence's flattened token text first,
/// then by the key's canonical text, both ascending and byte-lexicographic.
pub open spec fn row_le(a: RankedBinding, b: RankedBinding) -> bool {
    if a.flat@ != b.flat@ {
        lex_le(a.flat@, b.flat@)
    } else {
        lex_le(key_text(a.binding.key), key_text(b.binding.key))
    }
}

/// Decides `row_le`.
pub fn row_le_exec(a: &RankedBinding, b: &RankedBinding) -> (r: bool)
    ensures
        r == row_le(*a, *b),
{
    if !(a.flat == b.flat) {
        str_le(a.flat.as_str(), b.flat.as_str())
    } else {
        let ka = key_canonical_text(&a.binding.key);
        let kb = key_canonical_text(&b.binding.key);
        str_le(ka.as_str(), kb.as_str())
    }
}

/// The order is total: of any two rows, one sorts at or before the
/// other. Together with `sort_rows` returning exactly `sort_spec`, this
/// makes the row order deterministic: the same input always yields the
/// same order.
pub proof fn lemma_row_le_total(a: RankedBinding, b: RankedBinding)
    ensures
        row_le(a, b) || row_le(b, a),
{
    if a.flat@ != b.flat@ {
        lemma_lex_le_total(a.flat@, b.flat@);
    } else {
        lemma_lex_le_total(key_text(a.binding.key), key_text(b.binding.key));
    }
}

/// The order is antisymmetric up to the sort keys: two rows that each
/// sort at or before the other carry the same flattened action text and
/// the same key text, so ties exist only between rows the order cannot
/// tell apart.
pub proof fn lemma_row_le_antisymmetric(a: RankedBinding, b: RankedBinding)
    requires
        row_le(a, b),
        row_le(b, a),
    ensures
        a.flat@ == b.flat@,
        key_text(a.binding.key) == key_text(b.binding.key),
{
    if a.flat@ != b.flat@ {
        lemma_lex_le_antisymmetric(a.flat@, b.flat@);
    } else {
        lemma_lex_le_antisymmetric(key_text(a.binding.key), key_text(b.binding.key));
    }
}

/// The order is transitive.
pub proof fn lemma_row_le_transitive(a: RankedBinding, b: RankedBinding, c: RankedBinding)
    requires
        row_le(a, b),
        row_le(b, c),
    ensures
        row_le(a, c),
{
    if a.flat@ != b.flat@ && b.flat@ != c.flat@ {
        if a.flat@ == c.flat@ {
            lemma_lex_le_antisymmetric(a.flat@, b.flat@);
        } else {
            lemma_lex_le_transitive(a.flat@, b.flat@, c.flat@);
        }
    } else if a.flat@ == b.flat@ && b.flat@ != c.flat@ {
    } else if a.flat@ != b.flat@ && b.flat@ == c.flat@ {
    } else {
        lemma_lex_le_transitive(key_text(a.binding.key), key_text(b.binding.key), key_text(c.binding.key));
    }
}

/// Inserts `x` into a sorted run, after every element at or below it.
pub open spec fn insert_sorted(x: RankedBinding, s: Seq<RankedBinding>) -> Seq<RankedBinding>
    decreases s.len(),
{
    if s.len() > 0 && row_le(s[0], x) {
        seq![s[0]] + insert_sorted(x, s.drop_first())
    } else {
        seq![x] + s
    }
}

/// Insertion sort of a row list, element by element in input order.
pub open spec fn sort_spec(s: Seq<RankedBinding>) -> Seq<RankedBinding>
    decreases s.len(),
{
    if s.len() == 0 {
        Seq::<RankedBinding>::empty()
    } else {
        insert_sorted(s.last(), sort_spec(s.drop_last()))
    }
}

/// Whether a run of rows is ordered by `row_le`.
pub open spec fn sorted_rows(s: Seq<RankedBinding>) -> bool {
    forall|i: int, j: int| 0 <= i < j < s.len() ==> row_le(s[i], s[j])
}

proof fn lemma_insert_sorted_props(x: RankedBinding, s: Seq<RankedBinding>)
    requires
        sorted_rows(s),
    ensures
        sorted_rows(insert_sorted(x, s)),
        insert_sorted(x, s).to_multiset() == s.push(x).to_multiset(),
    decreases s.len(),
{
    let r = insert_sorted(x, s);
    if s.len() > 0 && row_le(s[0], x) {
        assert(s.drop_first().len() < s.len());
        assert forall|i: int, j: int| 0 <= i < j < s.drop_first().len() implies row_le(
            s.drop_first()[i],
            s.drop_first()[j],
        ) by {
            assert(s.drop_first()[i] == s[i + 1]);
            assert(s.drop_first()[j] == s[j + 1]);
        }
        lemma_insert_sorted_props(x, s.drop_first());
        let rr = insert_sorted(x, s.drop_first());
        assert(r == seq![s[0]] + rr);
        assert forall|i: int, j: int| 0 <= i < j < r.len() implies row_le(r[i], r[j]) by {
            if i == 0 {
                assert(r[0] == s[0]);
                lemma_insert_in_order(x, s.drop_first(), j - 1);
                if 0 <= j - 1 < s.drop_first().len() + 1 {
                    let y = rr[j - 1];
                    if exists|t: int| 0 <= t < s.drop_first().len() && y == s.drop_first()[t] {
                        let t = choose|t: int|
                            0 <= t < s.drop_first().len() && y == s.drop_first()[t];
                        assert(row_le(s[0], s[t + 1]));
                    } else {
                        assert(y == x);
                        assert(row_le(s[0], x));
                    }
                }
            } else {
                assert(r[i] == rr[i - 1]);
                assert(r[j] == rr[j - 1]);
            }
        }
        assert(s.push(x) =~= seq![s[0]] + s.drop_first().push(x));
        lemma_multiset_cons(seq![s[0]], rr, s.drop_first().push(x));
    } else {
        if s.len() > 0 {
            lemma_row_le_total(s[0], x);
            assert(row_le(x, s[0]));
            assert forall|i: int, j: int| 0 <= i < j < r.len() implies row_le(r[i], r[j]) by {
                if i == 0 {
                    assert(r[0] == x);
                    assert(r[j] == s[j - 1]);
                    if j == 1 {
                    } else {
                        lemma_row_le_transitive(x, s[0], s[j - 1]);
                    }
                } else {
                    assert(r[i] == s[i - 1]);
                    assert(r[j] == s[j - 1]);
                }
            }
        }
        assert(r =~= seq![x] + s);
        assert((seq![x] + s).to_multiset() =~= s.push(x).to_multiset()) by {
            lemma_multiset_commutative(seq![x], s);
            assert(seq![x] =~= Seq::<RankedBinding>::empty().push(x));
            assert(Seq::<RankedBinding>::empty().to_multiset() =~= vstd::multiset::Multiset::<RankedBinding>::empty());
            assert(seq![x].to_multiset() =~= vstd::multiset::Multiset::<RankedBinding>::empty().insert(x));
            assert(s.push(x).to_multiset() =~= s.to_multiset().insert(x));
            assert(vstd::multiset::Multiset::<RankedBinding>::empty().insert(x).add(s.to_multiset())
                =~= s.to_multiset().insert(x));
        }
    }
}

proof fn lemma_insert_in_order(x: RankedBinding, s: Seq<RankedBinding>, j: int)
    ensures
        0 <= j < insert_sorted(x, s).len() ==> (insert_sorted(x, s)[j] == x || exists|t: int|
            0 <= t < s.len() && insert_sorted(x, s)[j] == s[t]),
    decreases s.len(),
{
    let r = insert_sorted(x, s);
    if s.len() > 0 && row_le(s[0], x) {
        lemma_insert_in_order(x, s.drop_first(), j - 1);
        if 0 <= j < r.len() {
            if j == 0 {
                assert(r[0] == s[0]);
            } else {
                let rr = insert_sorted(x, s.drop_first());
                assert(r[j] == rr[j - 1]);
                if rr[j - 1] == x {
                } else {
                    let t = choose|t: int|
                        0 <= t < s.drop_first().len() && rr[j - 1] == s.drop_first()[t];
                    assert(r[j] == s[t + 1]);
                }
            }
        }
    } else {
        if 0 <= j < r.len() {
            if j == 0 {
            } else {
                assert(r[j] == s[j - 1]);
            }
        }
    }
}

proof fn lemma_multiset_cons(head: Seq<RankedBinding>, a: Seq<RankedBinding>, b: Seq<RankedBinding>)
    requires
        a.to_multiset() == b.to_multiset(),
    ensures
        (head + a).to_multiset() == (head + b).to_multiset(),
{
    lemma_multiset_commutative(head, a);
    lemma_multiset_commutative(head, b);
}

proof fn lemma_multiset_commutative(a: Seq<RankedBinding>, b: Seq<RankedBinding>)
    ensures
        (a + b).to_multiset() == a.to_multiset().add(b.to_multiset()),
{
    vstd::seq_lib::lemma_multiset_commutative(a, b);
}

/// Sorts a row list by `row_le`: the result is exactly the insertion
/// sort of the input — so re-running on the same input always yields the
/// same order — and it is sorted and holds the same rows.
pub fn sort_rows(v: &Vec<RankedBinding>) -> (r: Vec<RankedBinding>)
    ensures
        r@ == sort_spec(v@),
        sorted_rows(r@),
        r@.to_multiset() == v@.to_multiset(),
{
    let mut r: Vec<RankedBinding> = Vec::new();
    let mut i: usize = 0;
    proof {
        assert(v@.subrange(0, 0) =~= Seq::<RankedBinding>::empty());
        lemma_sort_spec_props(v@.subrange(0, 0));
    }
    while i < v.len()
        invariant
            i <= v@.len(),
            r@ == sort_spec(v@.subrange(0, i as int)),
            sorted_rows(r@),
            r@.to_multiset() == v@.subrange(0, i as int).to_multiset(),
        decreases v@.len() - i,
    {
        let x = copy_ranked(&v[i]);
        let mut pos: usize = 0;
        loop
            invariant_except_break
                pos <= r@.len(),
                forall|t: int| 0 <= t < pos ==> row_le(r@[t], x),
            ensures
                pos <= r@.len(),
                forall|t: int| 0 <= t < pos ==> row_le(r@[t], x),
                pos < r@.len() ==> !row_le(r@[pos as int], x),
            decreases r@.len() - pos,
        {
            if pos >= r.len() {
                break;
            }
            if !row_le_exec(&r[pos], &x) {
                break;
            }
            pos = pos + 1;
        }
        proof {
            lemma_insert_at(x, r@, pos as int);
            lemma_insert_sorted_props(x, r@);
            let pre1 = v@.subrange(0, i as int + 1);
            assert(pre1.drop_last() =~= v@.subrange(0, i as int));
            assert(pre1.last() == v@[i as int]);
            assert(pre1 =~= v@.subrange(0, i as int).push(x));
            assert(v@.subrange(0, i as int).push(x).to_multiset() == pre1.to_multiset());
        }
        r.insert(pos, x);
        proof {
            assert(r@ =~= sort_spec(v@.subrange(0, i as int + 1)));
        }
        i = i + 1;
    }
    proof {
        assert(v@.subrange(0, v@.len() as int) =~= v@);
    }
    r
}

proof fn lemma_sort_spec_props(s: Seq<RankedBinding>)
    ensures
        sorted_rows(sort_spec(s)),
        sort_spec(s).to_multiset() == s.to_multiset(),
    decreases s.len(),
{
    if s.len() == 0 {
        assert(sort_spec(s) =~= s);
    } else {
        lemma_sort_spec_props(s.drop_last());
        lemma_insert_sorted_props(s.last(), sort_spec(s.drop_last()));
        assert(s =~= s.drop_last().push(s.last()));
        assert(sort_spec(s.drop_last()).push(s.last()).to_multiset()
            == sort_spec(s.drop_last()).to_multiset().insert(s.last()));
        assert(s.drop_last().push(s.last()).to_multiset()
            == s.drop_last().to_multiset().insert(s.last()));
    }
}

proof fn lemma_insert_at(x: RankedBinding, s: Seq<RankedBinding>, pos: int)
    requires
        0 <= pos <= s.len(),
        forall|t: int| 0 <= t < pos ==> row_le(s[t], x),
        pos < s.len() ==> !row_le(s[pos], x),
        sorted_rows(s),
    ensures
        insert_sorted(x, s) == s.subrange(0, pos) + seq![x] + s.subrange(pos, s.len() as int),
    decreases s.len(),
{
    if s.len() > 0 && row_le(s[0], x) {
        assert(pos > 0);
        let d = s.drop_first();
        assert forall|i: int, j: int| 0 <= i < j < d.len() implies row_le(d[i], d[j]) by {
            assert(d[i] == s[i + 1]);
            assert(d[j] == s[j + 1]);
        }
        assert forall|t: int| 0 <= t < pos - 1 implies row_le(d[t], x) by {
            assert(d[t] == s[t + 1]);
        }
        assert(pos - 1 < d.len() ==> !row_le(d[pos - 1], x));
        lemma_insert_at(x, d, pos - 1);
        assert(insert_sorted(x, s) == seq![s[0]] + insert_sorted(x, d));
        assert(seq![s[0]] + (d.subrange(0, pos - 1) + seq![x] + d.subrange(pos - 1, d.len() as int))
            =~= s.subrange(0, pos) + seq![x] + s.subrange(pos, s.len() as int));
    } else {
        assert(pos == 0);
        assert(insert_sorted(x, s) == seq![x] + s);
        assert(s.subrange(0, 0) + seq![x] + s.subrange(0, s.len() as int) =~= seq![x] + s);
    }
}

} // verus!
