//! Tokens: the flat stream produced from a parsed action value, telling
//! literal symbols apart from punctuation.

use vstd::prelude::*;
use crate::parse::{Value, ValueKind, MapEntry, parse_action_text, unparse, wf_value};

verus! {

broadcast use vstd::std_specs::vec::group_vec_axioms;

/// Punctuation emitted around parsed values.
#[derive(Clone, Copy, PartialEq, Eq, Structural, Debug)]
pub enum Punct {
    LBracket,
    RBracket,
    LParen,
    RParen,
    Comma,
    Colon,
}

/// One token of a rendered action: a literal symbol or punctuation.
#[derive(Debug)]
pub enum Token {
    Symbol(String),
    Syntax(Punct),
}

/// The display text of a punctuation token.
pub open spec fn punct_text(p: Punct) -> Seq<char> {
    match p {
        Punct::LBracket => "["@,
        Punct::RBracket => "]"@,
        Punct::LParen => "("@,
        Punct::RParen => ")"@,
        Punct::Comma => ", "@,
        Punct::Colon => ": "@,
    }
}

/// The display text of a token.
pub open spec fn token_text(t: Token) -> Seq<char> {
    match t {
        Token::Symbol(s) => s@,
        Token::Syntax(p) => punct_text(p),
    }
}

/// Structural equality of tokens: same kind and same text.
pub open spec fn token_eq(a: Token, b: Token) -> bool {
    match (a, b) {
        (Token::Symbol(s1), Token::Symbol(s2)) => s1@ == s2@,
        (Token::Syntax(p1), Token::Syntax(p2)) => p1 == p2,
        _ => false,
    }
}

/// Decides `token_eq`.
pub fn token_matches(a: &Token, b: &Token) -> (r: bool)
    ensures
        r == token_eq(*a, *b),
{
    match (a, b) {
        (Token::Symbol(s1), Token::Symbol(s2)) => *s1 == *s2,
        (Token::Syntax(p1), Token::Syntax(p2)) => *p1 == *p2,
        _ => false,
    }
}

/// The display text of a token, as an owned string.
pub fn token_string(t: &Token) -> (r: String)
    ensures
        r@ == token_text(*t),
{
    match t {
        Token::Symbol(s) => s.clone(),
        Token::Syntax(p) => match p {
            Punct::LBracket => String::from_str("["),
            Punct::RBracket => String::from_str("]"),
            Punct::LParen => String::from_str("("),
            Punct::RParen => String::from_str(")"),
            Punct::Comma => String::from_str(", "),
            Punct::Colon => String::from_str(": "),
        },
    }
}

/// The token stream of a value: its name first, then its shape's tokens.
pub open spec fn value_tokens(v: Value) -> Seq<Token>
    decreases v,
{
    (match v.name {
        Some(n) => seq![Token::Symbol(n)],
        None => Seq::<Token>::empty(),
    }) + kind_tokens(v.kind)
}

/// The token stream of a value's shape. A set deliberately contributes no
/// element tokens: its contents are parsed but not rendered. (This mirrors
/// the observed rendering; emitting set elements like list elements would
/// be the natural completion.)
pub open spec fn kind_tokens(k: ValueKind) -> Seq<Token>
    decreases k,
{
    match k {
        ValueKind::SetOf(vs) => Seq::<Token>::empty(),
        ValueKind::MapOf(es) => entries_tokens(es@),
        ValueKind::List(vs) => seq![Token::Syntax(Punct::LBracket)] + items_tokens(vs@)
            + seq![Token::Syntax(Punct::RBracket)],
        ValueKind::Tuple(vs) => seq![Token::Syntax(Punct::LParen)] + items_tokens(vs@)
            + seq![Token::Syntax(Punct::RParen)],
        ValueKind::Term(t) => seq![Token::Symbol(t)],
    }
}

/// The tokens of a `, `-separated element list.
pub open spec fn items_tokens(vs: Seq<Value>) -> Seq<Token>
    decreases vs,
{
    if vs.len() == 0 {
        Seq::<Token>::empty()
    } else if vs.len() == 1 {
        value_tokens(vs[0])
    } else {
        value_tokens(vs[0]) + seq![Token::Syntax(Punct::Comma)] + items_tokens(vs.drop_first())
    }
}

/// The tokens of a `key: value` entry list.
pub open spec fn entries_tokens(es: Seq<MapEntry>) -> Seq<Token>
    decreases es,
{
    if es.len() == 0 {
        Seq::<Token>::empty()
    } else if es.len() == 1 {
        seq![Token::Symbol(es[0].key), Token::Syntax(Punct::Colon)] + value_tokens(es[0].value)
    } else {
        seq![Token::Symbol(es[0].key), Token::Syntax(Punct::Colon)] + value_tokens(es[0].value)
            + seq![Token::Syntax(Punct::Comma)] + entries_tokens(es.drop_first())
    }
}

proof fn lemma_items_tokens_push(vs: Seq<Value>, v: Value)
    ensures
        vs.len() == 0 ==> items_tokens(vs.push(v)) == value_tokens(v),
        vs.len() > 0 ==> items_tokens(vs.push(v)) == items_tokens(vs)
            + seq![Token::Syntax(Punct::Comma)] + value_tokens(v),
    decreases vs.len(),
{
    let p = vs.push(v);
    if vs.len() == 0 {
        assert(p.len() == 1);
        assert(p[0] == v);
    } else if vs.len() == 1 {
        assert(p.len() == 2);
        assert(p[0] == vs[0]);
        assert(p.drop_first() =~= seq![v]);
        assert(items_tokens(seq![v]) == value_tokens(v));
    } else {
        assert(p[0] == vs[0]);
        assert(p.drop_first() =~= vs.drop_first().push(v));
        lemma_items_tokens_push(vs.drop_first(), v);
        assert(value_tokens(vs[0]) + seq![Token::Syntax(Punct::Comma)] + (items_tokens(
            vs.drop_first(),
        ) + seq![Token::Syntax(Punct::Comma)] + value_tokens(v)) =~= items_tokens(vs)
            + seq![Token::Syntax(Punct::Comma)] + value_tokens(v));
    }
}

proof fn lemma_entries_tokens_push(es: Seq<MapEntry>, e: MapEntry)
    ensures
        es.len() == 0 ==> entries_tokens(es.push(e)) == seq![
            Token::Symbol(e.key),
            Token::Syntax(Punct::Colon),
        ] + value_tokens(e.value),
        es.len() > 0 ==> entries_tokens(es.push(e)) == entries_tokens(es)
            + seq![Token::Syntax(Punct::Comma)] + (seq![
            Token::Symbol(e.key),
            Token::Syntax(Punct::Colon),
        ] + value_tokens(e.value)),
    decreases es.len(),
{
    let p = es.push(e);
    if es.len() == 0 {
        assert(p.len() == 1);
        assert(p[0] == e);
    } else if es.len() == 1 {
        assert(p.len() == 2);
        assert(p[0] == es[0]);
        assert(p.drop_first() =~= seq![e]);
        assert(entries_tokens(seq![e]) == seq![Token::Symbol(e.key), Token::Syntax(Punct::Colon)]
            + value_tokens(e.value));
        assert(entries_tokens(p) =~= entries_tokens(es) + seq![Token::Syntax(Punct::Comma)] + (seq![
            Token::Symbol(e.key),
            Token::Syntax(Punct::Colon),
        ] + value_tokens(e.value)));
    } else {
        assert(p[0] == es[0]);
        assert(p.drop_first() =~= es.drop_first().push(e));
        lemma_entries_tokens_push(es.drop_first(), e);
        assert(seq![Token::Symbol(es[0].key), Token::Syntax(Punct::Colon)] + value_tokens(
            es[0].value,
        ) + seq![Token::Syntax(Punct::Comma)] + (entries_tokens(es.drop_first()) + seq![
            Token::Syntax(Punct::Comma),
        ] + (seq![Token::Symbol(e.key), Token::Syntax(Punct::Colon)] + value_tokens(e.value)))
            =~= entries_tokens(es) + seq![Token::Syntax(Punct::Comma)] + (seq![
            Token::Symbol(e.key),
            Token::Syntax(Punct::Colon),
        ] + value_tokens(e.value)));
    }
}

/// Flattens a value into its token stream.
pub fn value_to_tokens(v: &Value, out: &mut Vec<Token>)
    ensures
        final(out)@ == old(out)@ + value_tokens(*v),
    decreases *v,
{
    if let Some(n) = &v.name {
        out.push(Token::Symbol(n.clone()));
    }
    let ghost after_name = out@;
    match &v.kind {
        ValueKind::SetOf(vs) => {
            // Set elements are deliberately not emitted; see `kind_tokens`.
        },
        ValueKind::MapOf(es) => {
            proof {
                assert(v.kind == ValueKind::MapOf(*es));
                assert(decreases_to!(ValueKind::MapOf(*es) => *es));
                assert(decreases_to!(*v => *es));
            }
            let mut i: usize = 0;
            while i < es.len()
                invariant
                    i <= es@.len(),
                    decreases_to!(*v => *es),
                    out@ == after_name + entries_tokens(es@.subrange(0, i as int)),
                decreases es@.len() - i,
            {
                let ghost pre = es@.subrange(0, i as int);
                if i > 0 {
                    out.push(Token::Syntax(Punct::Comma));
                }
                out.push(Token::Symbol(es[i].key.clone()));
                out.push(Token::Syntax(Punct::Colon));
                value_to_tokens(&es[i].value, out);
                proof {
                    lemma_entries_tokens_push(pre, es@[i as int]);
                    assert(es@.subrange(0, i as int + 1) =~= pre.push(es@[i as int]));
                    assert(out@ =~= after_name + entries_tokens(es@.subrange(0, i as int + 1)));
                }
                i = i + 1;
            }
            proof {
                assert(es@.subrange(0, es@.len() as int) =~= es@);
            }
        },
        ValueKind::List(vs) => {
            proof {
                assert(v.kind == ValueKind::List(*vs));
                assert(decreases_to!(ValueKind::List(*vs) => *vs));
                assert(decreases_to!(*v => *vs));
            }
            out.push(Token::Syntax(Punct::LBracket));
            let ghost base = out@;
            let mut i: usize = 0;
            while i < vs.len()
                invariant
                    i <= vs@.len(),
                    decreases_to!(*v => *vs),
                    out@ == base + items_tokens(vs@.subrange(0, i as int)),
                decreases vs@.len() - i,
            {
                let ghost pre = vs@.subrange(0, i as int);
                if i > 0 {
                    out.push(Token::Syntax(Punct::Comma));
                }
                value_to_tokens(&vs[i], out);
                proof {
                    lemma_items_tokens_push(pre, vs@[i as int]);
                    assert(vs@.subrange(0, i as int + 1) =~= pre.push(vs@[i as int]));
                    assert(out@ =~= base + items_tokens(vs@.subrange(0, i as int + 1)));
                }
                i = i + 1;
            }
            out.push(Token::Syntax(Punct::RBracket));
            proof {
                assert(vs@.subrange(0, vs@.len() as int) =~= vs@);
            }
        },
        ValueKind::Tuple(vs) => {
            proof {
                assert(v.kind == ValueKind::Tuple(*vs));
                assert(decreases_to!(ValueKind::Tuple(*vs) => *vs));
                assert(decreases_to!(*v => *vs));
            }
            out.push(Token::Syntax(Punct::LParen));
            let ghost base = out@;
            let mut i: usize = 0;
            while i < vs.len()
                invariant
                    i <= vs@.len(),
                    decreases_to!(*v => *vs),
                    out@ == base + items_tokens(vs@.subrange(0, i as int)),
                decreases vs@.len() - i,
            {
                let ghost pre = vs@.subrange(0, i as int);
                if i > 0 {
                    out.push(Token::Syntax(Punct::Comma));
                }
                value_to_tokens(&vs[i], out);
                proof {
                    lemma_items_tokens_push(pre, vs@[i as int]);
                    assert(vs@.subrange(0, i as int + 1) =~= pre.push(vs@[i as int]));
                    assert(out@ =~= base + items_tokens(vs@.subrange(0, i as int + 1)));
                }
                i = i + 1;
            }
            out.push(Token::Syntax(Punct::RParen));
            proof {
                assert(vs@.subrange(0, vs@.len() as int) =~= vs@);
            }
        },
        ValueKind::Term(t) => {
            out.push(Token::Symbol(t.clone()));
        },
    }
    proof {
        assert(out@ =~= old(out)@ + value_tokens(*v));
    }
}

/// The token stream with its wrapping pair removed: an action sequence is
/// dumped as a one-element list, so its first and last tokens are the
/// enclosing list brackets.
pub open spec fn strip_ends(ts: Seq<Token>) -> Seq<Token> {
    if ts.len() >= 2 {
        ts.subrange(1, ts.len() - 1)
    } else {
        ts
    }
}

/// What a tokenization of a dump may be: the stripped token stream of a
/// well-formed tree whose canonical rendering is the dump, or the single
/// fallback symbol holding the raw text. The well-formedness bound matters:
/// it restricts the rendering trees to the ones the grammar can actually
/// produce, so no junk tree vouches for a stream.
pub open spec fn tokens_for(dump: Seq<char>, ts: Seq<Token>) -> bool {
    ||| exists|v: Value|
        wf_value(v) && unparse(v) == dump && ts == strip_ends(value_tokens(v))
    ||| (ts.len() == 1 && (ts[0] matches Token::Symbol(t) && t@ == dump))
}

/// Tokenizes the textual dump of an action sequence, dropping the wrapping
/// list brackets. A dump that the grammar rejects degrades to a single
/// fallback `Symbol` holding the raw text, so tokenizing never fails.
pub fn sequence_tokens(s: &str) -> (r: Vec<Token>)
    ensures
        tokens_for(s@, r@),
{
    match parse_action_text(s) {
        Ok(v) => {
            let mut ts: Vec<Token> = Vec::new();
            value_to_tokens(&v, &mut ts);
            proof {
                assert(ts@ =~= value_tokens(v));
            }
            if ts.len() >= 2 {
                let mut out: Vec<Token> = Vec::new();
                let mut i: usize = 1;
                while i < ts.len() - 1
                    invariant
                        1 <= i <= ts@.len() - 1,
                        ts@.len() >= 2,
                        out@ == ts@.subrange(1, i as int),
                    decreases ts@.len() - i,
                {
                    let copied = match &ts[i] {
                        Token::Symbol(sym) => Token::Symbol(sym.clone()),
                        Token::Syntax(p) => Token::Syntax(*p),
                    };
                    proof {
                        assert(copied == ts@[i as int]);
                    }
                    out.push(copied);
                    proof {
                        assert(out@ =~= ts@.subrange(1, i as int + 1));
                    }
                    i = i + 1;
                }
                proof {
                    assert(out@ =~= strip_ends(ts@));
                    assert(wf_value(v) && unparse(v) == s@ && out@ == strip_ends(value_tokens(v)));
                }
                out
            } else {
                proof {
                    assert(strip_ends(ts@) == ts@);
                }
                ts
            }
        },
        Err(_) => {
            let mut out: Vec<Token> = Vec::new();
            out.push(Token::Symbol(s.to_owned()));
            out
        },
    }
}

/// The flattened display text of a token stream: the token texts joined
/// with nothing between them. Rows are ordered by this text.
pub open spec fn flat_text(ts: Seq<Token>) -> Seq<char>
    decreases ts.len(),
{
    if ts.len() == 0 {
        Seq::<char>::empty()
    } else {
        flat_text(ts.drop_last()) + token_text(ts.last())
    }
}

/// Joins a token stream's display texts into one string.
pub fn flatten_tokens(ts: &Vec<Token>) -> (r: String)
    ensures
        r@ == flat_text(ts@),
{
    let mut r = String::new();
    let mut i: usize = 0;
    while i < ts.len()
        invariant
            i <= ts@.len(),
            r@ == flat_text(ts@.subrange(0, i as int)),
        decreases ts@.len() - i,
    {
        let t = token_string(&ts[i]);
        r.append(t.as_str());
        proof {
            let pre = ts@.subrange(0, i as int + 1);
            assert(pre.drop_last() =~= ts@.subrange(0, i as int));
            assert(pre.last() == ts@[i as int]);
        }
        i = i + 1;
    }
    proof {
        assert(ts@.subrange(0, ts@.len() as int) =~= ts@);
    }
    r
}

/// What the flattened text of a dump may be: the joined display text of a
/// tokenization of that dump.
pub open spec fn flat_for(dump: Seq<char>, flat: Seq<char>) -> bool {
    exists|ts: Seq<Token>| #[trigger] tokens_for(dump, ts) && flat == flat_text(ts)
}

} // verus!
