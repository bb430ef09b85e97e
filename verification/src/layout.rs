//! The table layout engine: builds the cell rows of one pane and the
//! per-column width maxima that align them.

use vstd::prelude::*;
use crate::classify::Binding;
use crate::diff::{Cell, key_cells, action_cells, glyph_text, modifier_style, diff_style,
    spans_width};
use crate::keys::{Key, key_part_texts};
use crate::text::display_width;
use crate::tokens::{Token, token_text, sequence_tokens, tokens_for};

verus! {

/// Whether rows `i` and `j` of the table bind the same action text.
pub open spec fn actions_match(bindings: Seq<Binding>, i: int, j: int) -> bool {
    0 <= i < bindings.len() && 0 <= j < bindings.len() && bindings[i].actions@
        == bindings[j].actions@
}

/// What holds of one built row, given the per-row token streams: five
/// cells — the three key cells, the connector glyph cell and the action
/// text cell — with the texts, styles and widths the diff engine assigns,
/// using the row just before and just after as the comparison window.
pub open spec fn row_ok(bindings: Seq<Binding>, toks: Seq<Seq<Token>>, i: int, row: Seq<Cell>) -> bool {
    let k = bindings[i].key;
    let prev = if i > 0 {
        Some(bindings[i - 1].key)
    } else {
        None
    };
    let pm = i > 0 && actions_match(bindings, i, i - 1);
    let nm = i + 1 < bindings.len() && actions_match(bindings, i, i + 1);
    let ct = toks[i];
    let pt = if i > 0 {
        toks[i - 1]
    } else {
        Seq::<Token>::empty()
    };
    &&& row.len() == 5
    &&& forall|c: int| 0 <= c < 3 ==> #[trigger] row[c].spans@.len() == 1
    &&& row[0].spans@[0].text@ == key_part_texts(k).0
    &&& row[1].spans@[0].text@ == key_part_texts(k).1
    &&& row[2].spans@[0].text@ == key_part_texts(k).2
    &&& row[0].spans@[0].style == modifier_style(k, prev)
    &&& forall|c: int|
        0 <= c < 3 ==> #[trigger] row[c].width as int == display_width(row[c].spans@[0].text@)
    &&& row[3].spans@.len() == 1
    &&& row[3].spans@[0].text@ == glyph_text(pm, nm)
    &&& row[3].width == 1
    &&& (pm ==> row[4].spans@.len() == 0 && row[4].width == 0)
    &&& (!pm ==> {
        &&& row[4].spans@.len() == ct.len()
        &&& (forall|t: int|
            0 <= t < ct.len() ==> row[4].spans@[t].text@ == token_text(ct[t])
                && row[4].spans@[t].style == diff_style(ct, pt, t))
        &&& row[4].width as int == spans_width(row[4].spans@)
    })
}

/// Builds the cell rows of one pane from its sorted bindings, comparing
/// each row with its immediate predecessor and successor. Also returns the
/// token stream of each row's action text, which the rows were diffed
/// against.
pub fn table_rows(bindings: &Vec<Binding>) -> (r: (Vec<Vec<Cell>>, Vec<Vec<Token>>))
    ensures
        r.1@.len() == bindings@.len(),
        forall|j: int|
            0 <= j < bindings@.len() ==> tokens_for(
                bindings@[j].actions@,
                #[trigger] r.1@[j]@,
            ),
        r.0@.len() == bindings@.len(),
        forall|i: int|
            0 <= i < r.0@.len() ==> row_ok(
                bindings@,
                r.1@.map_values(|v: Vec<Token>| v@),
                i,
                #[trigger] r.0@[i]@,
            ),
{
    let mut r: Vec<Vec<Cell>> = Vec::new();
    let mut toks: Vec<Vec<Token>> = Vec::new();
    let mut i: usize = 0;
    while i < bindings.len()
        invariant
            i <= bindings@.len(),
            toks@.len() == i,
            forall|j: int| 0 <= j < i ==> tokens_for(bindings@[j].actions@, #[trigger] toks@[j]@),
        decreases bindings@.len() - i,
    {
        let ts = sequence_tokens(bindings[i].actions.as_str());
        toks.push(ts);
        i = i + 1;
    }
    let ghost tv = toks@.map_values(|v: Vec<Token>| v@);
    let empty_tokens: Vec<Token> = Vec::new();
    let mut i: usize = 0;
    while i < bindings.len()
        invariant
            i <= bindings@.len(),
            r@.len() == i,
            empty_tokens@ == Seq::<Token>::empty(),
            toks@.len() == bindings@.len(),
            tv == toks@.map_values(|v: Vec<Token>| v@),
            forall|j: int|
                0 <= j < toks@.len() ==> tokens_for(bindings@[j].actions@, #[trigger] toks@[j]@),
            forall|j: int| 0 <= j < i ==> row_ok(bindings@, tv, j, #[trigger] r@[j]@),
        decreases bindings@.len() - i,
    {
        let prev_key: Option<&Key> = if i > 0 {
            Some(&bindings[i - 1].key)
        } else {
            None
        };
        let mut row = key_cells(&bindings[i].key, prev_key);
        let pm = i > 0 && bindings[i].actions == bindings[i - 1].actions;
        let nm = i + 1 < bindings.len() && bindings[i].actions == bindings[i + 1].actions;
        let prev_toks: &Vec<Token> = if i > 0 {
            &toks[i - 1]
        } else {
            &empty_tokens
        };
        let (glyph_cell, text_cell) = action_cells(&toks[i], prev_toks, pm, nm);
        row.push(glyph_cell);
        row.push(text_cell);
        proof {
            assert(row@[0].spans@.len() == 1);
            assert(row@[1].spans@.len() == 1);
            assert(row@[2].spans@.len() == 1);
            assert(tv[i as int] == toks@[i as int]@);
            assert(i > 0 ==> tv[i as int - 1] == toks@[i as int - 1]@);
            assert(pm == (i as int > 0 && actions_match(bindings@, i as int, i as int - 1)));
            assert(nm == (i as int + 1 < bindings@.len() && actions_match(
                bindings@,
                i as int,
                i as int + 1,
            )));
            assert(row_ok(bindings@, tv, i as int, row@));
        }
        r.push(row);
        i = i + 1;
    }
    (r, toks)
}

/// The width of column `c` over the rows seen so far: the largest cell
/// width at that column index, zero where a row has no such column.
pub open spec fn column_width(data: Seq<Seq<usize>>, c: int) -> int
    decreases data.len(),
{
    if data.len() == 0 {
        0
    } else {
        let rest = column_width(data.drop_last(), c);
        let here = if 0 <= c < data.last().len() {
            data.last()[c] as int
        } else {
            0
        };
        if here > rest {
            here
        } else {
            rest
        }
    }
}

/// The number of columns: the longest row's length.
pub open spec fn column_count(data: Seq<Seq<usize>>) -> int
    decreases data.len(),
{
    if data.len() == 0 {
        0
    } else {
        let rest = column_count(data.drop_last());
        if data.last().len() > rest {
            data.last().len() as int
        } else {
            rest
        }
    }
}

/// Folds the per-row cell widths into per-column maxima: one entry per
/// column of the longest row, each the largest width seen in that column.
pub fn calculate_column_widths(data: &Vec<Vec<usize>>) -> (r: Vec<usize>)
    ensures
        r@.len() == column_count(data@.map_values(|row: Vec<usize>| row@)),
        forall|c: int|
            0 <= c < r@.len() ==> #[trigger] r@[c] as int == column_width(
                data@.map_values(|row: Vec<usize>| row@),
                c,
            ),
{
    let ghost view = data@.map_values(|row: Vec<usize>| row@);
    let mut acc: Vec<usize> = Vec::new();
    let mut i: usize = 0;
    proof {
        assert(view.subrange(0, 0) =~= Seq::<Seq<usize>>::empty());
    }
    while i < data.len()
        invariant
            i <= data@.len(),
            view == data@.map_values(|row: Vec<usize>| row@),
            view.len() == data@.len(),
            acc@.len() == column_count(view.subrange(0, i as int)),
            forall|c: int|
                0 <= c < acc@.len() ==> #[trigger] acc@[c] as int == column_width(
                    view.subrange(0, i as int),
                    c,
                ),
        decreases data@.len() - i,
    {
        let ghost pre = view.subrange(0, i as int);
        let ghost grown = view.subrange(0, i as int + 1);
        proof {
            assert(grown.drop_last() =~= pre);
            assert(grown.last() == view[i as int]);
            assert(view[i as int] == data@[i as int]@);
        }
        let row = &data[i];
        let mut c: usize = 0;
        while c < row.len()
            invariant
                i < data@.len(),
                c <= row@.len(),
                row@ == data@[i as int]@,
                view == data@.map_values(|r2: Vec<usize>| r2@),
                view.len() == data@.len(),
                pre == view.subrange(0, i as int),
                acc@.len() >= column_count(pre),
                acc@.len() >= c,
                acc@.len() <= (if column_count(pre) > row@.len() as int {
                    column_count(pre)
                } else {
                    row@.len() as int
                }),
                forall|t: int|
                    0 <= t < acc@.len() ==> #[trigger] acc@[t] as int == (if t < c
                        && (row@[t] as int) > column_width(pre, t) {
                        row@[t] as int
                    } else {
                        column_width(pre, t)
                    }),
            decreases row@.len() - c,
        {
            let len = row[c];
            if c >= acc.len() {
                proof {
                    assert(column_width(pre, c as int) == 0) by {
                        lemma_column_width_beyond(pre, c as int);
                    }
                }
                acc.push(len);
            } else {
                if len > acc[c] {
                    acc.set(c, len);
                }
            }
            c = c + 1;
        }
        proof {
            assert(acc@.len() == column_count(grown)) by {
                assert(column_count(grown) == (if grown.last().len() as int > column_count(pre) {
                    grown.last().len() as int
                } else {
                    column_count(pre)
                }));
            }
            assert forall|t: int| 0 <= t < acc@.len() implies #[trigger] acc@[t] as int
                == column_width(grown, t) by {
                assert(column_width(grown, t) == (if 0 <= t < grown.last().len()
                    && grown.last()[t] as int > column_width(pre, t) {
                    grown.last()[t] as int
                } else {
                    column_width(pre, t)
                }));
            }
        }
        i = i + 1;
    }
    proof {
        assert(view.subrange(0, view.len() as int) =~= view);
    }
    acc
}

proof fn lemma_column_width_beyond(data: Seq<Seq<usize>>, c: int)
    requires
        c >= column_count(data),
    ensures
        column_width(data, c) == 0,
    decreases data.len(),
{
    if data.len() > 0 {
        lemma_column_width_beyond(data.drop_last(), c);
    }
}

} // verus!
