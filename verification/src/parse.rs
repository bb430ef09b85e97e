//! A recursive-descent parser for the bracketed textual dump of an action
//! value: a nested expression over sets, maps, lists, tuples and terms,
//! optionally name-prefixed.
//!
//! The grammar is the image of [`unparse`]: a value parses exactly when it
//! is the canonical rendering of some tree, and the parser is proved sound
//! against that rendering — whatever tree it returns renders back to the
//! input, character for character.

use vstd::prelude::*;

verus! {

/// One parsed value: an optional name followed by the value's shape.
pub struct Value {
    pub name: Option<String>,
    pub kind: ValueKind,
}

/// The shape of a parsed value.
pub enum ValueKind {
    /// `{a, b}` — braces whose first element is not a `key: value` pair.
    SetOf(Vec<Value>),
    /// `{k: v}`, or `Name { k: v }` when named.
    MapOf(Vec<MapEntry>),
    /// `[a, b]`.
    List(Vec<Value>),
    /// `(a, b)`.
    Tuple(Vec<Value>),
    /// A bare or quoted atom.
    Term(String),
}

/// One `key: value` pair of a map.
pub struct MapEntry {
    pub key: String,
    pub value: Value,
}

/// A parse failure, with the position where parsing stopped.
#[derive(Clone, Copy, PartialEq, Eq, Structural, Debug)]
pub struct ParseError {
    pub at: usize,
}

/// The canonical rendering of a value; it defines the parser's grammar.
/// A named map renders as `Name { k: v }` with inner spaces (the way
/// record-like values are customarily dumped); every other shape renders
/// with no inner spaces, `, ` between elements and `: ` after keys.
pub open spec fn unparse(v: Value) -> Seq<char>
    decreases v,
{
    match v.name {
        Some(n) => match v.kind {
            ValueKind::MapOf(es) => n@ + seq![' ', '{', ' '] + unparse_entries(es@) + seq![' ', '}'],
            _ => n@ + unparse_kind(v.kind),
        },
        None => unparse_kind(v.kind),
    }
}

/// The canonical rendering of a value's shape, without any name.
pub open spec fn unparse_kind(k: ValueKind) -> Seq<char>
    decreases k,
{
    match k {
        ValueKind::Term(t) => t@,
        ValueKind::List(vs) => seq!['['] + unparse_items(vs@) + seq![']'],
        ValueKind::Tuple(vs) => seq!['('] + unparse_items(vs@) + seq![')'],
        ValueKind::SetOf(vs) => seq!['{'] + unparse_items(vs@) + seq!['}'],
        ValueKind::MapOf(es) => seq!['{'] + unparse_entries(es@) + seq!['}'],
    }
}

/// The canonical rendering of a `, `-separated element list.
pub open spec fn unparse_items(vs: Seq<Value>) -> Seq<char>
    decreases vs,
{
    if vs.len() == 0 {
        Seq::<char>::empty()
    } else if vs.len() == 1 {
        unparse(vs[0])
    } else {
        unparse(vs[0]) + seq![',', ' '] + unparse_items(vs.drop_first())
    }
}

/// The canonical rendering of a `, `-separated `key: value` list.
pub open spec fn unparse_entries(es: Seq<MapEntry>) -> Seq<char>
    decreases es,
{
    if es.len() == 0 {
        Seq::<char>::empty()
    } else if es.len() == 1 {
        es[0].key@ + seq![':', ' '] + unparse(es[0].value)
    } else {
        es[0].key@ + seq![':', ' '] + unparse(es[0].value) + seq![',', ' ']
            + unparse_entries(es.drop_first())
    }
}

proof fn lemma_unparse_items_push(vs: Seq<Value>, v: Value)
    ensures
        vs.len() == 0 ==> unparse_items(vs.push(v)) == unparse(v),
        vs.len() > 0 ==> unparse_items(vs.push(v)) == unparse_items(vs) + seq![',', ' ']
            + unparse(v),
    decreases vs.len(),
{
    let p = vs.push(v);
    if vs.len() == 0 {
        assert(p.len() == 1);
        assert(p[0] == v);
    } else if vs.len() == 1 {
        assert(p.len() == 2);
        assert(p[0] == vs[0]);
        assert(p.drop_first() =~= seq![v]);
        assert(unparse_items(seq![v]) == unparse(v));
        assert(unparse_items(vs) == unparse(vs[0]));
    } else {
        assert(p[0] == vs[0]);
        assert(p.drop_first() =~= vs.drop_first().push(v));
        lemma_unparse_items_push(vs.drop_first(), v);
        assert(unparse_items(p) == unparse(vs[0]) + seq![',', ' '] + unparse_items(
            vs.drop_first().push(v),
        ));
        assert(unparse(vs[0]) + seq![',', ' '] + (unparse_items(vs.drop_first()) + seq![',', ' ']
            + unparse(v)) =~= unparse_items(vs) + seq![',', ' '] + unparse(v));
    }
}

proof fn lemma_unparse_entries_push(es: Seq<MapEntry>, e: MapEntry)
    ensures
        es.len() == 0 ==> unparse_entries(es.push(e)) == e.key@ + seq![':', ' '] + unparse(e.value),
        es.len() > 0 ==> unparse_entries(es.push(e)) == unparse_entries(es) + seq![',', ' ']
            + (e.key@ + seq![':', ' '] + unparse(e.value)),
    decreases es.len(),
{
    let p = es.push(e);
    if es.len() == 0 {
        assert(p.len() == 1);
        assert(p[0] == e);
    } else if es.len() == 1 {
        assert(p.len() == 2);
        assert(p[0] == es[0]);
        assert(p.drop_first() =~= seq![e]);
        assert(unparse_entries(seq![e]) == e.key@ + seq![':', ' '] + unparse(e.value));
        assert(unparse_entries(p) =~= unparse_entries(es) + seq![',', ' '] + (e.key@ + seq![':', ' ']
            + unparse(e.value)));
    } else {
        assert(p[0] == es[0]);
        assert(p.drop_first() =~= es.drop_first().push(e));
        lemma_unparse_entries_push(es.drop_first(), e);
        assert(unparse_entries(p) == es[0].key@ + seq![':', ' '] + unparse(es[0].value) + seq![',', ' ']
            + unparse_entries(es.drop_first().push(e)));
        assert(es[0].key@ + seq![':', ' '] + unparse(es[0].value) + seq![',', ' ']
            + (unparse_entries(es.drop_first()) + seq![',', ' '] + (e.key@ + seq![':', ' ']
            + unparse(e.value))) =~= unparse_entries(es) + seq![',', ' '] + (e.key@ + seq![':', ' ']
            + unparse(e.value)));
    }
}

/// Whether `c` may stand inside a bare atom: anything except brackets,
/// braces, parentheses, comma, colon, space and the double quote.
pub open spec fn is_atom_char(c: char) -> bool {
    c != '(' && c != ')' && c != '[' && c != ']' && c != '{' && c != '}' && c != ',' && c != ':'
        && c != ' ' && c != '"'
}

/// Decides `is_atom_char`.
fn atom_char(c: char) -> (r: bool)
    ensures
        r == is_atom_char(c),
{
    c != '(' && c != ')' && c != '[' && c != ']' && c != '{' && c != '}' && c != ',' && c != ':'
        && c != ' ' && c != '"'
}

/// Whether a piece of text has the shape of an atom: a nonempty run of
/// atom characters, or a quoted string (opening and closing with a double
/// quote). Exactly the texts that `parse_atom` can return.
pub open spec fn wf_atom(t: Seq<char>) -> bool {
    ||| (t.len() > 0 && forall|q: int| 0 <= q < t.len() ==> is_atom_char(#[trigger] t[q]))
    ||| (t.len() >= 2 && t[0] == '"' && t[t.len() - 1] == '"')
}

/// A well-formed tree: every name, map key and term text has the shape of
/// an atom, and a name stands only on a bracketed shape, never on a bare
/// term. Exactly the trees the parser can build, so contracts that
/// quantify over rendering trees range over these and no junk.
pub open spec fn wf_value(v: Value) -> bool
    decreases v,
{
    &&& (match v.name {
        Some(n) => wf_atom(n@) && !(v.kind is Term),
        None => true,
    })
    &&& wf_kind(v.kind)
}

/// Well-formedness of a value's shape.
pub open spec fn wf_kind(k: ValueKind) -> bool
    decreases k,
{
    match k {
        ValueKind::Term(t) => wf_atom(t@),
        ValueKind::List(vs) => wf_items(vs@),
        ValueKind::Tuple(vs) => wf_items(vs@),
        ValueKind::SetOf(vs) => wf_items(vs@),
        ValueKind::MapOf(es) => wf_entries(es@),
    }
}

/// Well-formedness of an element list.
pub open spec fn wf_items(vs: Seq<Value>) -> bool
    decreases vs,
{
    forall|q: int| 0 <= q < vs.len() ==> wf_value(#[trigger] vs[q])
}

/// Well-formedness of an entry list.
pub open spec fn wf_entries(es: Seq<MapEntry>) -> bool
    decreases es,
{
    forall|q: int|
        0 <= q < es.len() ==> wf_atom(#[trigger] es[q].key@) && wf_value(es[q].value)
}

/// Parses one atom at position `i`: a maximal run of atom characters, or a
/// quoted string (kept verbatim, quotes and escapes included). On success
/// the returned text is exactly the consumed slice.
fn parse_atom(s: &str, i: usize, n: usize) -> (r: Result<(String, usize), ParseError>)
    requires
        n == s@.len(),
        i <= n,
    ensures
        r matches Ok(t) ==> i < t.1 <= n && t.0@ == s@.subrange(i as int, t.1 as int) && wf_atom(
            t.0@,
        ),
        forall|j: int|
            #![trigger s@.subrange(i as int, j)]
            i < j <= n && (forall|q: int| i <= q < j ==> is_atom_char(#[trigger] s@[q])) && (j == n
                || !is_atom_char(s@[j])) ==> (r matches Ok(a) && a.1 == j),
{
    if i >= n {
        return Err(ParseError { at: i });
    }
    let c0 = s.get_char(i);
    if c0 == '"' {
        let mut j: usize = i + 1;
        let mut esc: bool = false;
        loop
            invariant
                n == s@.len(),
                i + 1 <= j <= n,
                s@[i as int] == '"',
            decreases n - j,
        {
            if j >= n {
                return Err(ParseError { at: j });
            }
            let c = s.get_char(j);
            if esc {
                esc = false;
                j = j + 1;
            } else if c == '\\' {
                esc = true;
                j = j + 1;
            } else if c == '"' {
                let t = s.substring_char(i, j + 1).to_owned();
                proof {
                    assert(t@.len() == j + 1 - i);
                    assert(t@[0] == s@[i as int]);
                    assert(t@[t@.len() - 1] == s@[j as int]);
                    assert(s@[i as int] == '"');
                    assert(s@[j as int] == '"');
                    assert(wf_atom(t@));
                }
                return Ok((t, j + 1));
            } else {
                j = j + 1;
            }
        }
    } else if atom_char(c0) {
        let mut j: usize = i + 1;
        loop
            invariant_except_break
                n == s@.len(),
                i + 1 <= j <= n,
                forall|q: int| i <= q < j ==> is_atom_char(#[trigger] s@[q]),
            ensures
                n == s@.len(),
                i + 1 <= j <= n,
                forall|q: int| i <= q < j ==> is_atom_char(#[trigger] s@[q]),
                j == n || !is_atom_char(s@[j as int]),
            decreases n - j,
        {
            if j >= n {
                break;
            }
            if !atom_char(s.get_char(j)) {
                break;
            }
            j = j + 1;
        }
        let t = s.substring_char(i, j).to_owned();
        proof {
            assert forall|q: int| 0 <= q < t@.len() implies is_atom_char(#[trigger] t@[q]) by {
                assert(t@[q] == s@[i + q]);
            }
            assert forall|jj: int|
                #![trigger s@.subrange(i as int, jj)]
                i < jj <= n && (forall|q: int| i <= q < jj ==> is_atom_char(#[trigger] s@[q])) && (
                jj == n || !is_atom_char(s@[jj])) implies jj == j as int by {
                if jj < j {
                    assert(is_atom_char(s@[jj]));
                } else if jj > j {
                    assert(is_atom_char(s@[j as int]));
                }
            }
        }
        Ok((t, j))
    } else {
        proof {
            assert(!is_atom_char(s@[i as int]));
        }
        Err(ParseError { at: i })
    }
}

/// Parses one value at position `i`. On success, rendering the returned
/// tree with `unparse` gives back exactly the consumed slice of the input.
#[verifier::rlimit(100)]
pub fn parse_value(s: &str, i: usize, n: usize) -> (r: Result<(Value, usize), ParseError>)
    requires
        n == s@.len(),
        i <= n,
    ensures
        r matches Ok(t) ==> i < t.1 <= n && s@.subrange(i as int, t.1 as int) == unparse(t.0)
            && wf_value(t.0),
        (i < n && (forall|q: int| i <= q < n ==> is_atom_char(#[trigger] s@[q]))) ==> (r matches
            Ok(t) && t.1 == n),
    decreases n - i, 0int,
{
    if i >= n {
        return Err(ParseError { at: i });
    }
    let c0 = s.get_char(i);
    if c0 == '(' {
        match parse_items(s, i + 1, n, ')') {
            Ok((vs, j)) => {
                let v = Value { name: None, kind: ValueKind::Tuple(vs) };
                proof {
                    assert(s@.subrange(i as int, j as int + 1) =~= seq!['(']
                        + s@.subrange(i as int + 1, j as int) + seq![')']);
                }
                Ok((v, j + 1))
            },
            Err(e) => Err(e),
        }
    } else if c0 == '[' {
        match parse_items(s, i + 1, n, ']') {
            Ok((vs, j)) => {
                let v = Value { name: None, kind: ValueKind::List(vs) };
                proof {
                    assert(s@.subrange(i as int, j as int + 1) =~= seq!['[']
                        + s@.subrange(i as int + 1, j as int) + seq![']']);
                }
                Ok((v, j + 1))
            },
            Err(e) => Err(e),
        }
    } else if c0 == '{' {
        if i + 1 < n && s.get_char(i + 1) == '}' {
            let vs: Vec<Value> = Vec::new();
            let v = Value { name: None, kind: ValueKind::SetOf(vs) };
            proof {
                assert(s@.subrange(i as int, i as int + 2) =~= seq!['{', '}']);
                assert(unparse_items(Seq::<Value>::empty()) == Seq::<char>::empty());
                assert(unparse(v) == unparse_kind(v.kind));
                assert(unparse_kind(v.kind) =~= seq!['{', '}']);
            }
            return Ok((v, i + 2));
        }
        let is_map = match parse_atom(s, i + 1, n) {
            Ok((_, ja)) => ja < n && s.get_char(ja) == ':',
            Err(_) => false,
        };
        if is_map {
            match parse_entries(s, i + 1, n) {
                Ok((es, j)) => {
                    if j < n && s.get_char(j) == '}' {
                        let v = Value { name: None, kind: ValueKind::MapOf(es) };
                        proof {
                            assert(s@.subrange(i as int, j as int + 1) =~= seq!['{']
                                + s@.subrange(i as int + 1, j as int) + seq!['}']);
                        }
                        Ok((v, j + 1))
                    } else {
                        Err(ParseError { at: j })
                    }
                },
                Err(e) => Err(e),
            }
        } else {
            match parse_items(s, i + 1, n, '}') {
                Ok((vs, j)) => {
                    let v = Value { name: None, kind: ValueKind::SetOf(vs) };
                    proof {
                        assert(s@.subrange(i as int, j as int + 1) =~= seq!['{']
                            + s@.subrange(i as int + 1, j as int) + seq!['}']);
                    }
                    Ok((v, j + 1))
                },
                Err(e) => Err(e),
            }
        }
    } else {
        match parse_atom(s, i, n) {
            Ok((a, ja)) => {
                proof {
                    if i < n && (forall|q: int| i <= q < n ==> is_atom_char(#[trigger] s@[q])) {
                        let ghost full = s@.subrange(i as int, n as int);
                        assert(ja == n);
                    }
                }
                if ja < n {
                    let c1 = s.get_char(ja);
                    if c1 == '(' {
                        match parse_items(s, ja + 1, n, ')') {
                            Ok((vs, j)) => {
                                let v = Value { name: Some(a), kind: ValueKind::Tuple(vs) };
                                proof {
                                    assert(s@.subrange(i as int, j as int + 1) =~= s@.subrange(
                                        i as int, ja as int) + (seq!['(']
                                        + s@.subrange(ja as int + 1, j as int) + seq![')']));
                                }
                                Ok((v, j + 1))
                            },
                            Err(e) => Err(e),
                        }
                    } else if c1 == '[' {
                        match parse_items(s, ja + 1, n, ']') {
                            Ok((vs, j)) => {
                                let v = Value { name: Some(a), kind: ValueKind::List(vs) };
                                proof {
                                    assert(s@.subrange(i as int, j as int + 1) =~= s@.subrange(
                                        i as int, ja as int) + (seq!['[']
                                        + s@.subrange(ja as int + 1, j as int) + seq![']']));
                                }
                                Ok((v, j + 1))
                            },
                            Err(e) => Err(e),
                        }
                    } else if c1 == ' ' && n - ja > 2 && s.get_char(ja + 1) == '{' && s.get_char(
                        ja + 2,
                    ) == ' ' {
                        match parse_entries(s, ja + 3, n) {
                            Ok((es, j)) => {
                                if n - j > 1 && s.get_char(j) == ' ' && s.get_char(j + 1) == '}' {
                                    let v = Value { name: Some(a), kind: ValueKind::MapOf(es) };
                                    proof {
                                        assert(s@.subrange(i as int, j as int + 2) =~= s@.subrange(
                                            i as int, ja as int) + seq![' ', '{', ' ']
                                            + s@.subrange(ja as int + 3, j as int) + seq![' ', '}']);
                                    }
                                    Ok((v, j + 2))
                                } else {
                                    Err(ParseError { at: j })
                                }
                            },
                            Err(e) => Err(e),
                        }
                    } else {
                        let v = Value { name: None, kind: ValueKind::Term(a) };
                        Ok((v, ja))
                    }
                } else {
                    let v = Value { name: None, kind: ValueKind::Term(a) };
                    Ok((v, ja))
                }
            },
            Err(e) => {
                proof {
                    if i < n && (forall|q: int| i <= q < n ==> is_atom_char(#[trigger] s@[q])) {
                        let ghost full = s@.subrange(i as int, n as int);
                        assert(false);
                    }
                }
                Err(e)
            },
        }
    }
}

/// Parses a `, `-separated element list ending just before `close`, which
/// must follow it. The consumed slice is the canonical rendering of the
/// returned elements.
fn parse_items(s: &str, i: usize, n: usize, close: char) -> (r: Result<
    (Vec<Value>, usize),
    ParseError,
>)
    requires
        n == s@.len(),
        i <= n,
    ensures
        r matches Ok(t) ==> i <= t.1 < n && s@[t.1 as int] == close && s@.subrange(
            i as int,
            t.1 as int,
        ) == unparse_items(t.0@) && wf_items(t.0@),
    decreases n - i, 1int,
{
    let mut vs: Vec<Value> = Vec::new();
    if i < n && s.get_char(i) == close {
        proof {
            assert(s@.subrange(i as int, i as int) =~= unparse_items(vs@));
        }
        return Ok((vs, i));
    }
    let mut cur: usize;
    match parse_value(s, i, n) {
        Ok((v, j)) => {
            vs.push(v);
            cur = j;
            proof {
                lemma_unparse_items_push(Seq::<Value>::empty(), v);
                assert(vs@ =~= Seq::<Value>::empty().push(v));
            }
        },
        Err(e) => {
            return Err(e);
        },
    }
    loop
        invariant
            n == s@.len(),
            i < cur <= n,
            vs@.len() >= 1,
            s@.subrange(i as int, cur as int) == unparse_items(vs@),
            wf_items(vs@),
        decreases n - cur,
    {
        if cur >= n {
            return Err(ParseError { at: cur });
        }
        let c = s.get_char(cur);
        if c == close {
            return Ok((vs, cur));
        }
        if c != ',' {
            return Err(ParseError { at: cur });
        }
        if cur + 1 >= n || s.get_char(cur + 1) != ' ' {
            return Err(ParseError { at: cur });
        }
        match parse_value(s, cur + 2, n) {
            Ok((v, j)) => {
                proof {
                    lemma_unparse_items_push(vs@, v);
                    assert(s@.subrange(cur as int, cur as int + 2) =~= seq![',', ' ']);
                    assert(s@.subrange(i as int, j as int) =~= s@.subrange(i as int, cur as int)
                        + s@.subrange(cur as int, cur as int + 2) + s@.subrange(
                        cur as int + 2,
                        j as int,
                    ));
                }
                vs.push(v);
                cur = j;
            },
            Err(e) => {
                return Err(e);
            },
        }
    }
}

/// Parses a `, `-separated, nonempty `key: value` list. The consumed slice
/// is the canonical rendering of the returned entries; parsing stops just
/// before the first character that does not continue the list.
fn parse_entries(s: &str, i: usize, n: usize) -> (r: Result<(Vec<MapEntry>, usize), ParseError>)
    requires
        n == s@.len(),
        i <= n,
    ensures
        r matches Ok(t) ==> i <= t.1 <= n && t.0@.len() >= 1 && s@.subrange(i as int, t.1 as int)
            == unparse_entries(t.0@) && wf_entries(t.0@),
    decreases n - i, 2int,
{
    let mut es: Vec<MapEntry> = Vec::new();
    let mut cur: usize;
    match parse_entry(s, i, n) {
        Ok((e, j)) => {
            proof {
                lemma_unparse_entries_push(Seq::<MapEntry>::empty(), e);
            }
            es.push(e);
            cur = j;
            proof {
                assert(es@ =~= Seq::<MapEntry>::empty().push(e));
            }
        },
        Err(e) => {
            return Err(e);
        },
    }
    loop
        invariant
            n == s@.len(),
            i < cur <= n,
            es@.len() >= 1,
            s@.subrange(i as int, cur as int) == unparse_entries(es@),
            wf_entries(es@),
        decreases n - cur,
    {
        if cur >= n || s.get_char(cur) != ',' {
            return Ok((es, cur));
        }
        if cur + 1 >= n || s.get_char(cur + 1) != ' ' {
            return Ok((es, cur));
        }
        match parse_entry(s, cur + 2, n) {
            Ok((e, j)) => {
                proof {
                    lemma_unparse_entries_push(es@, e);
                    assert(s@.subrange(cur as int, cur as int + 2) =~= seq![',', ' ']);
                    assert(s@.subrange(i as int, j as int) =~= s@.subrange(i as int, cur as int)
                        + s@.subrange(cur as int, cur as int + 2) + s@.subrange(
                        cur as int + 2,
                        j as int,
                    ));
                }
                es.push(e);
                cur = j;
            },
            Err(e) => {
                return Err(e);
            },
        }
    }
}

/// Parses one `key: value` entry.
fn parse_entry(s: &str, i: usize, n: usize) -> (r: Result<(MapEntry, usize), ParseError>)
    requires
        n == s@.len(),
        i <= n,
    ensures
        r matches Ok(t) ==> i < t.1 <= n && s@.subrange(i as int, t.1 as int) == t.0.key@
            + seq![':', ' '] + unparse(t.0.value) && wf_atom(t.0.key@) && wf_value(t.0.value),
    decreases n - i, 1int,
{
    match parse_atom(s, i, n) {
        Ok((k, jk)) => {
            if n - jk > 1 && s.get_char(jk) == ':' && s.get_char(jk + 1) == ' ' {
                match parse_value(s, jk + 2, n) {
                    Ok((v, j)) => {
                        proof {
                            assert(s@.subrange(jk as int, jk as int + 2) =~= seq![':', ' ']);
                            assert(s@.subrange(i as int, j as int) =~= s@.subrange(
                                i as int,
                                jk as int,
                            ) + s@.subrange(jk as int, jk as int + 2) + s@.subrange(
                                jk as int + 2,
                                j as int,
                            ));
                        }
                        Ok((MapEntry { key: k, value: v }, j))
                    },
                    Err(e) => Err(e),
                }
            } else {
                Err(ParseError { at: jk })
            }
        },
        Err(e) => Err(e),
    }
}

/// Parses a complete action dump: the whole input must be consumed. On
/// success the returned tree is well formed and its canonical rendering is
/// exactly the input; a nonempty input made solely of atom characters is
/// always accepted, as a bare term.
pub fn parse_action_text(s: &str) -> (r: Result<Value, ParseError>)
    ensures
        r matches Ok(v) ==> unparse(v) == s@ && wf_value(v),
        (s@.len() > 0 && (forall|q: int| 0 <= q < s@.len() ==> is_atom_char(#[trigger] s@[q])))
            ==> r is Ok,
{
    let n = s.unicode_len();
    match parse_value(s, 0, n) {
        Ok((v, j)) => {
            if j == n {
                proof {
                    assert(s@.subrange(0, n as int) =~= s@);
                }
                Ok(v)
            } else {
                Err(ParseError { at: j })
            }
        },
        Err(e) => Err(e),
    }
}

} // verus!
