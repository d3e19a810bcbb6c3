//! Properties of the tokenizer and the parser as a whole: where each
//! token's line number comes from, how plain text splits into tokens, how
//! line numbers run through the parsed tree, and how the directive queries
//! relate.

use vstd::prelude::*;
use crate::parser::{
    count_newlines, find_char, is_word_break, lemma_find_char_bounds, lemma_word_end_bounds,
    spec_tokenize, texts, tokens_from, word_end, TokenView, ItemView, BlockView, DirectiveView,
    parse_from, spec_parse, statement_end, lemma_statement_end_bounds, is_punct,
    law_token_lines_ordered, spec_directives_direct, spec_directives_recursive,
};
use crate::text::spec_is_whitespace;

verus! {

/// The index in `s` where each token of `tokens_from(s, i, _)` starts: its
/// first character, or the opening quote of a quoted string.
pub open spec fn token_starts_from(s: Seq<char>, i: int) -> Seq<int>
    decreases s.len() - i,
{
    if i < 0 || i >= s.len() {
        seq![]
    } else {
        let c = s[i];
        if c == '\n' || spec_is_whitespace(c) {
            token_starts_from(s, i + 1)
        } else if c == '#' {
            let e = find_char(s, i, '\n');
            proof {
                lemma_find_char_bounds(s, i, '\n');
            }
            if e < s.len() {
                token_starts_from(s, e + 1)
            } else {
                seq![]
            }
        } else if c == '{' || c == '}' || c == ';' {
            seq![i] + token_starts_from(s, i + 1)
        } else if c == '"' || c == '\'' {
            let e = find_char(s, i + 1, c);
            proof {
                lemma_find_char_bounds(s, i + 1, c);
            }
            let next = if e < s.len() { e + 1 } else { e };
            seq![i] + token_starts_from(s, next)
        } else {
            let e = word_end(s, i);
            proof {
                lemma_word_end_bounds(s, i);
            }
            seq![i] + token_starts_from(s, e)
        }
    }
}

/// Where each token of a whole config text starts.
pub open spec fn token_starts(s: Seq<char>) -> Seq<int> {
    token_starts_from(s, 0)
}

proof fn lemma_count_concat(a: Seq<char>, b: Seq<char>)
    ensures
        count_newlines(a + b) == count_newlines(a) + count_newlines(b),
    decreases b.len(),
{
    if b.len() > 0 {
        lemma_count_concat(a, b.drop_last());
        assert((a + b).drop_last() =~= a + b.drop_last());
    } else {
        assert(a + b =~= a);
    }
}

proof fn lemma_count_none(t: Seq<char>)
    requires
        forall|k: int| 0 <= k < t.len() ==> t[k] != '\n',
    ensures
        count_newlines(t) == 0,
    decreases t.len(),
{
    if t.len() > 0 {
        lemma_count_none(t.drop_last());
    }
}

/// The newlines before index `j` are those before `i` plus those in
/// between.
proof fn lemma_count_take_split(s: Seq<char>, i: int, j: int)
    requires
        0 <= i <= j <= s.len(),
    ensures
        count_newlines(s.take(j)) == count_newlines(s.take(i)) + count_newlines(s.subrange(i, j)),
{
    assert(s.take(j) =~= s.take(i) + s.subrange(i, j));
    lemma_count_concat(s.take(i), s.subrange(i, j));
}

proof fn lemma_count_take_step(s: Seq<char>, j: int)
    requires
        0 <= j < s.len(),
    ensures
        count_newlines(s.take(j + 1)) == count_newlines(s.take(j)) + if s[j] == '\n' {
            1nat
        } else {
            0nat
        },
{
    assert(s.take(j + 1).drop_last() =~= s.take(j));
}

proof fn lemma_count_take_le(s: Seq<char>, j: int)
    requires
        0 <= j <= s.len(),
    ensures
        count_newlines(s.take(j)) <= count_newlines(s),
{
    lemma_count_take_split(s, j, s.len() as int);
    assert(s.take(s.len() as int) =~= s);
}

proof fn lemma_token_starts_from(s: Seq<char>, i: int, line: nat)
    requires
        0 <= i <= s.len(),
        line == 1 + count_newlines(s.take(i)),
    ensures
        ({
            let t = tokens_from(s, i, line);
            let st = token_starts_from(s, i);
            &&& st.len() == t.len()
            &&& forall|k: int| 0 <= k < st.len() ==> i <= #[trigger] st[k] < s.len()
            &&& forall|k: int, m: int| 0 <= k < m < st.len() ==> #[trigger] st[k] < #[trigger] st[m]
            &&& forall|k: int|
                0 <= k < st.len() ==> (#[trigger] t[k]).line == 1 + count_newlines(s.take(st[k]))
            &&& forall|k: int|
                0 <= k < st.len() ==> !spec_is_whitespace(s[#[trigger] st[k]]) && s[st[k]] != '#'
        }),
    decreases s.len() - i,
{
    if i < s.len() {
        let c = s[i];
        lemma_count_take_step(s, i);
        if c == '\n' {
            lemma_token_starts_from(s, i + 1, line + 1);
        } else if spec_is_whitespace(c) {
            lemma_token_starts_from(s, i + 1, line);
        } else if c == '#' {
            lemma_find_char_bounds(s, i, '\n');
            let e = find_char(s, i, '\n');
            if e < s.len() {
                lemma_count_take_split(s, i, e);
                lemma_count_none(s.subrange(i, e));
                lemma_count_take_step(s, e);
                lemma_token_starts_from(s, e + 1, line + 1);
            }
        } else {
            let (next, next_line) = if c == '{' || c == '}' || c == ';' {
                (i + 1, line)
            } else if c == '"' || c == '\'' {
                lemma_find_char_bounds(s, i + 1, c);
                let e = find_char(s, i + 1, c);
                let text = s.subrange(i + 1, e);
                lemma_count_take_split(s, i + 1, e);
                if e < s.len() {
                    lemma_count_take_step(s, e);
                }
                (if e < s.len() { e + 1 } else { e }, line + count_newlines(text))
            } else {
                lemma_word_end_bounds(s, i);
                let e = word_end(s, i);
                lemma_count_take_split(s, i, e);
                lemma_count_none(s.subrange(i, e));
                (e, line)
            };
            lemma_token_starts_from(s, next, next_line);
            let t = tokens_from(s, i, line);
            let st = token_starts_from(s, i);
            let rest_t = tokens_from(s, next, next_line);
            let rest_st = token_starts_from(s, next);
            assert(t == seq![t[0]] + rest_t);
            assert(st == seq![i] + rest_st);
            assert forall|k: int| 0 <= k < st.len() implies i <= #[trigger] st[k] < s.len() by {
                if k > 0 {
                    assert(st[k] == rest_st[k - 1]);
                }
            }
            assert forall|k: int, m: int| 0 <= k < m < st.len() implies #[trigger] st[k] < #[trigger] st[m] by {
                assert(st[m] == rest_st[m - 1]);
                if k > 0 {
                    assert(st[k] == rest_st[k - 1]);
                }
            }
            assert forall|k: int| 0 <= k < st.len() implies (#[trigger] t[k]).line == 1
                + count_newlines(s.take(st[k])) by {
                if k > 0 {
                    assert(st[k] == rest_st[k - 1]);
                    assert(t[k] == rest_t[k - 1]);
                }
            }
            assert forall|k: int| 0 <= k < st.len() implies !spec_is_whitespace(s[#[trigger] st[k]])
                && s[st[k]] != '#' by {
                if k > 0 {
                    assert(st[k] == rest_st[k - 1]);
                }
            }
        }
    }
}

/// Each token's line is 1 plus the number of newlines before the place
/// where the token starts (its first character, or its opening quote);
/// the tokens start at increasing places, none at whitespace or a `#`, so
/// every line lies between 1 and 1 plus the number of newlines in the text.
pub proof fn law_token_line_is_newlines_before(s: Seq<char>)
    ensures
        ({
            let t = spec_tokenize(s);
            let st = token_starts(s);
            &&& st.len() == t.len()
            &&& forall|k: int| 0 <= k < st.len() ==> 0 <= #[trigger] st[k] < s.len()
            &&& forall|k: int, m: int| 0 <= k < m < st.len() ==> #[trigger] st[k] < #[trigger] st[m]
            &&& forall|k: int|
                0 <= k < st.len() ==> (#[trigger] t[k]).line == 1 + count_newlines(s.take(st[k]))
            &&& forall|k: int|
                0 <= k < st.len() ==> !spec_is_whitespace(s[#[trigger] st[k]]) && s[st[k]] != '#'
            &&& forall|k: int| 0 <= k < t.len() ==> 1 <= (#[trigger] t[k]).line <= 1 + count_newlines(s)
        }),
{
    assert(s.take(0) =~= Seq::<char>::empty());
    lemma_token_starts_from(s, 0, 1);
    let t = spec_tokenize(s);
    let st = token_starts(s);
    assert forall|k: int| 0 <= k < t.len() implies 1 <= (#[trigger] t[k]).line <= 1 + count_newlines(s) by {
        lemma_count_take_le(s, st[k]);
    }
}


/// A piece in progress, as a list of at most one piece.
pub open spec fn finish_piece(cur: Seq<char>) -> Seq<Seq<char>> {
    if cur.len() > 0 {
        seq![cur]
    } else {
        seq![]
    }
}

/// `s` from index `i` on split at whitespace and around every `{`, `}` and
/// `;` (each a piece of its own), empty pieces dropped, where `cur` is the
/// piece read so far.
pub open spec fn split_pieces(s: Seq<char>, i: int, cur: Seq<char>) -> Seq<Seq<char>>
    decreases s.len() - i,
{
    if i < 0 || i >= s.len() {
        finish_piece(cur)
    } else {
        let c = s[i];
        if spec_is_whitespace(c) {
            finish_piece(cur) + split_pieces(s, i + 1, seq![])
        } else if c == '{' || c == '}' || c == ';' {
            finish_piece(cur) + seq![seq![c]] + split_pieces(s, i + 1, seq![])
        } else {
            split_pieces(s, i + 1, cur.push(c))
        }
    }
}

proof fn lemma_texts_cons(tok: TokenView, rest: Seq<TokenView>)
    ensures
        texts(seq![tok] + rest) == seq![tok.text] + texts(rest),
{
    assert(texts(seq![tok] + rest) =~= seq![tok.text] + texts(rest));
}

proof fn lemma_split_word_run(s: Seq<char>, i: int, e: int, cur: Seq<char>)
    requires
        0 <= i <= e <= s.len(),
        forall|k: int| i <= k < e ==> !is_word_break(#[trigger] s[k]),
        !s.contains('#'),
    ensures
        split_pieces(s, i, cur) == split_pieces(s, e, cur + s.subrange(i, e)),
    decreases e - i,
{
    if i == e {
        assert(cur + s.subrange(i, e) =~= cur);
    } else {
        assert(s[i] != '#');
        lemma_split_word_run(s, i + 1, e, cur.push(s[i]));
        assert(cur.push(s[i]) + s.subrange(i + 1, e) =~= cur + s.subrange(i, e));
    }
}

proof fn lemma_plain_tokens(s: Seq<char>, i: int, line: nat)
    requires
        0 <= i <= s.len(),
        !s.contains('#'),
        !s.contains('"'),
        !s.contains('\''),
    ensures
        texts(tokens_from(s, i, line)) == split_pieces(s, i, seq![]),
    decreases s.len() - i,
{
    if i < s.len() {
        let c = s[i];
        assert(c != '#' && c != '"' && c != '\'');
        if c == '\n' {
            lemma_plain_tokens(s, i + 1, line + 1);
            assert(finish_piece(seq![]) =~= Seq::<Seq<char>>::empty());
            assert(split_pieces(s, i, seq![]) =~= split_pieces(s, i + 1, seq![]));
        } else if spec_is_whitespace(c) {
            lemma_plain_tokens(s, i + 1, line);
            assert(split_pieces(s, i, seq![]) =~= split_pieces(s, i + 1, seq![]));
        } else if c == '{' || c == '}' || c == ';' {
            lemma_plain_tokens(s, i + 1, line);
            lemma_texts_cons(TokenView { text: seq![c], line }, tokens_from(s, i + 1, line));
            assert(split_pieces(s, i, seq![]) =~= seq![seq![c]] + split_pieces(s, i + 1, seq![]));
        } else {
            lemma_word_end_bounds(s, i);
            let e = word_end(s, i);
            let word = s.subrange(i, e);
            lemma_split_word_run(s, i, e, seq![]);
            assert(Seq::<char>::empty() + word =~= word);
            lemma_texts_cons(TokenView { text: word, line }, tokens_from(s, e, line));
            if e == s.len() {
                assert(tokens_from(s, e, line) =~= Seq::<TokenView>::empty());
                assert(texts(Seq::<TokenView>::empty()) =~= Seq::<Seq<char>>::empty());
                assert(split_pieces(s, e, word) =~= seq![word]);
            } else {
                let d = s[e];
                assert(d != '#' && d != '"' && d != '\'');
                if d == '\n' {
                    lemma_plain_tokens(s, e + 1, line + 1);
                    assert(split_pieces(s, e, word) =~= seq![word] + split_pieces(s, e + 1, seq![]));
                } else if spec_is_whitespace(d) {
                    lemma_plain_tokens(s, e + 1, line);
                    assert(split_pieces(s, e, word) =~= seq![word] + split_pieces(s, e + 1, seq![]));
                } else {
                    lemma_plain_tokens(s, e + 1, line);
                    lemma_texts_cons(TokenView { text: seq![d], line }, tokens_from(s, e + 1, line));
                    assert(split_pieces(s, e, word) =~= seq![word] + seq![seq![d]] + split_pieces(
                        s,
                        e + 1,
                        seq![],
                    ));
                }
            }
        }
    } else {
        assert(texts(tokens_from(s, i, line)) =~= split_pieces(s, i, seq![]));
    }
}

/// Whether every piece is non-empty and free of whitespace.
pub open spec fn clean_pieces(ps: Seq<Seq<char>>) -> bool {
    forall|k: int|
        0 <= k < ps.len() ==> (#[trigger] ps[k]).len() > 0 && forall|m: int|
            0 <= m < ps[k].len() ==> !spec_is_whitespace(#[trigger] ps[k][m])
}

proof fn lemma_clean_concat(a: Seq<Seq<char>>, b: Seq<Seq<char>>)
    requires
        clean_pieces(a),
        clean_pieces(b),
    ensures
        clean_pieces(a + b),
{
    assert forall|k: int| 0 <= k < (a + b).len() implies (#[trigger] (a + b)[k]).len() > 0 && forall|m: int|
        0 <= m < (a + b)[k].len() ==> !spec_is_whitespace(#[trigger] (a + b)[k][m]) by {
        if k < a.len() {
            assert((a + b)[k] == a[k]);
        } else {
            assert((a + b)[k] == b[k - a.len()]);
        }
    }
}

proof fn lemma_split_pieces_clean(s: Seq<char>, i: int, cur: Seq<char>)
    requires
        forall|k: int| 0 <= k < cur.len() ==> !spec_is_whitespace(#[trigger] cur[k]),
    ensures
        clean_pieces(split_pieces(s, i, cur)),
    decreases s.len() - i,
{
    let fin = finish_piece(cur);
    assert(clean_pieces(fin));
    if i >= 0 && i < s.len() {
        let c = s[i];
        if spec_is_whitespace(c) {
            lemma_split_pieces_clean(s, i + 1, seq![]);
            lemma_clean_concat(fin, split_pieces(s, i + 1, seq![]));
        } else if c == '{' || c == '}' || c == ';' {
            lemma_split_pieces_clean(s, i + 1, seq![]);
            let single: Seq<Seq<char>> = seq![seq![c]];
            assert(clean_pieces(single));
            lemma_clean_concat(fin, single);
            lemma_clean_concat(fin + single, split_pieces(s, i + 1, seq![]));
        } else {
            let next = cur.push(c);
            assert forall|k: int| 0 <= k < next.len() implies !spec_is_whitespace(#[trigger] next[k]) by {
                if k < cur.len() {
                    assert(next[k] == cur[k]);
                }
            }
            lemma_split_pieces_clean(s, i + 1, next);
        }
    }
}

/// A text without comments or quotes tokenizes to its pieces: it is split
/// at whitespace and around every `{`, `}` and `;`, which stand alone, and
/// empty pieces are dropped; so no token is empty or holds whitespace.
pub proof fn law_plain_text_tokens(s: Seq<char>)
    requires
        !s.contains('#'),
        !s.contains('"'),
        !s.contains('\''),
    ensures
        texts(spec_tokenize(s)) == split_pieces(s, 0, seq![]),
        forall|k: int|
            0 <= k < spec_tokenize(s).len() ==> (#[trigger] spec_tokenize(s)[k]).text.len() > 0
                && forall|m: int|
                0 <= m < spec_tokenize(s)[k].text.len() ==> !spec_is_whitespace(
                    #[trigger] spec_tokenize(s)[k].text[m],
                ),
{
    lemma_plain_tokens(s, 0, 1);
    lemma_split_pieces_clean(s, 0, seq![]);
    let t = spec_tokenize(s);
    assert forall|k: int| 0 <= k < t.len() implies (#[trigger] t[k]).text.len() > 0 && forall|m: int|
        0 <= m < t[k].text.len() ==> !spec_is_whitespace(#[trigger] t[k].text[m]) by {
        assert(texts(t)[k] == t[k].text);
        assert(split_pieces(s, 0, seq![])[k] == t[k].text);
    }
}


/// The line of an item, then (for a block) the lines of its body in
/// pre-order.
pub open spec fn item_lines(item: ItemView) -> Seq<nat>
    decreases item,
{
    match item {
        ItemView::Directive(d) => seq![d.line],
        ItemView::Block(b) => seq![b.line] + preorder_lines(b.body),
    }
}

/// The lines of all items, listed in pre-order: an item, then what is
/// nested in it, then the items after it.
pub open spec fn preorder_lines(items: Seq<ItemView>) -> Seq<nat>
    decreases items,
{
    if items.len() == 0 {
        seq![]
    } else {
        preorder_lines(items.drop_last()) + item_lines(items.last())
    }
}

pub open spec fn nondecreasing(ls: Seq<nat>) -> bool {
    forall|i: int, j: int| 0 <= i < j < ls.len() ==> #[trigger] ls[i] <= #[trigger] ls[j]
}

pub open spec fn within(ls: Seq<nat>, lo: nat, hi: nat) -> bool {
    forall|i: int| 0 <= i < ls.len() ==> lo <= #[trigger] ls[i] <= hi
}

proof fn lemma_preorder_concat(a: Seq<ItemView>, b: Seq<ItemView>)
    ensures
        preorder_lines(a + b) == preorder_lines(a) + preorder_lines(b),
    decreases b.len(),
{
    if b.len() == 0 {
        assert(a + b =~= a);
        assert(preorder_lines(a) + preorder_lines(b) =~= preorder_lines(a));
    } else {
        lemma_preorder_concat(a, b.drop_last());
        assert((a + b).drop_last() =~= a + b.drop_last());
        assert(preorder_lines(a + b) =~= preorder_lines(a) + preorder_lines(b));
    }
}

proof fn lemma_preorder_single(x: ItemView)
    ensures
        preorder_lines(seq![x]) == item_lines(x),
{
    assert(seq![x].drop_last() =~= Seq::<ItemView>::empty());
    assert(preorder_lines(Seq::<ItemView>::empty()) + item_lines(x) =~= item_lines(x));
}

/// Joining two ordered runs where the first's bound is at most the
/// second's gives an ordered run within the outer bounds.
proof fn lemma_join_runs(a: Seq<nat>, b: Seq<nat>, lo: nat, mid1: nat, mid2: nat, hi: nat)
    requires
        nondecreasing(a),
        nondecreasing(b),
        within(a, lo, mid1),
        within(b, mid2, hi),
        lo <= mid1 <= mid2 <= hi,
    ensures
        nondecreasing(a + b),
        within(a + b, lo, hi),
{
    let c = a + b;
    assert forall|i: int, j: int| 0 <= i < j < c.len() implies #[trigger] c[i] <= #[trigger] c[j] by {
        if j < a.len() {
            assert(c[i] == a[i] && c[j] == a[j]);
        } else if i >= a.len() {
            assert(c[i] == b[i - a.len()] && c[j] == b[j - a.len()]);
        } else {
            assert(c[i] == a[i] && c[j] == b[j - a.len()]);
        }
    }
    assert forall|i: int| 0 <= i < c.len() implies lo <= #[trigger] c[i] <= hi by {
        if i < a.len() {
            assert(c[i] == a[i]);
        } else {
            assert(c[i] == b[i - a.len()]);
        }
    }
}

proof fn lemma_parse_from_lines(t: Seq<TokenView>, p: int)
    requires
        0 <= p <= t.len(),
        forall|i: int, j: int| 0 <= i < j < t.len() ==> (#[trigger] t[i]).line <= (#[trigger] t[j]).line,
    ensures
        ({
            let (items, q) = parse_from(t, p);
            let pl = preorder_lines(items);
            &&& p <= q <= t.len()
            &&& nondecreasing(pl)
            &&& pl.len() > 0 ==> p < q && within(pl, t[p].line, t[q - 1].line)
        }),
    decreases t.len() - p,
{
    if p < t.len() && !is_punct(t[p], '}') {
        lemma_statement_end_bounds(t, p);
        let e = statement_end(t, p);
        if e < t.len() {
            let lp = t[p].line;
            if is_punct(t[e], ';') {
                lemma_parse_from_lines(t, e + 1);
                let (rest, q) = parse_from(t, e + 1);
                let rl = preorder_lines(rest);
                if e != p {
                    let d = DirectiveView { name: t[p].text, args: texts(t.subrange(p + 1, e)), line: lp };
                    lemma_preorder_concat(seq![ItemView::Directive(d)], rest);
                    lemma_preorder_single(ItemView::Directive(d));
                    let head: Seq<nat> = seq![lp];
                    if rl.len() > 0 {
                        lemma_join_runs(head, rl, lp, lp, t[e + 1].line, t[q - 1].line);
                    } else {
                        assert(head + rl =~= head);
                    }
                } else if rl.len() > 0 {
                    assert(within(rl, lp, t[q - 1].line));
                }
            } else {
                lemma_parse_from_lines(t, e + 1);
                let (body, qb) = parse_from(t, e + 1);
                lemma_parse_from_lines(t, qb);
                let (rest, r) = parse_from(t, qb);
                let b = BlockView {
                    name: if e > p { t[p].text } else { seq![] },
                    args: if e > p { texts(t.subrange(p + 1, e)) } else { seq![] },
                    body,
                    line: if e > p { t[p].line } else { t[e].line },
                };
                assert(parse_from(t, p) == (seq![ItemView::Block(b)] + rest, r));
                lemma_preorder_concat(seq![ItemView::Block(b)], rest);
                lemma_preorder_single(ItemView::Block(b));
                let head: Seq<nat> = seq![lp];
                let bl = preorder_lines(body);
                let rl = preorder_lines(rest);
                // the block's own line, then its body
                let hb = head + bl;
                if bl.len() > 0 {
                    lemma_join_runs(head, bl, lp, lp, t[e + 1].line, t[qb - 1].line);
                } else {
                    assert(hb =~= head);
                }
                let hb_hi = if bl.len() > 0 { t[qb - 1].line } else { lp };
                assert(within(hb, lp, hb_hi));
                assert(hb_hi <= t[r - 1].line);
                if rl.len() > 0 {
                    lemma_join_runs(hb, rl, lp, hb_hi, t[qb].line, t[r - 1].line);
                } else {
                    assert(hb + rl =~= hb);
                    assert forall|i: int| 0 <= i < (hb + rl).len() implies lp <= #[trigger] (hb
                        + rl)[i] <= t[r - 1].line by {
                        assert((hb + rl)[i] == hb[i]);
                    }
                }
                assert(preorder_lines(seq![ItemView::Block(b)] + rest) =~= hb + rl);
            }
        }
    }
}

/// Listing every parsed item in pre-order (an item, then what is nested in
/// it, then the items after it), the lines never decrease, and each lies
/// between 1 and 1 plus the number of newlines in the text.
pub proof fn law_parse_lines_ordered(s: Seq<char>)
    ensures
        nondecreasing(preorder_lines(spec_parse(s))),
        within(preorder_lines(spec_parse(s)), 1, 1 + count_newlines(s)),
{
    let t = spec_tokenize(s);
    law_token_lines_ordered(s);
    law_token_line_is_newlines_before(s);
    lemma_parse_from_lines(t, 0);
    let (items, q) = parse_from(t, 0);
    let pl = preorder_lines(items);
    if pl.len() > 0 {
        assert(1 <= t[0].line);
        assert(t[q - 1].line <= 1 + count_newlines(s));
    }
}


/// Whether `a` is `b` with some elements left out, element `j` of `a`
/// standing at index `ks[j]` of `b`.
pub open spec fn is_subsequence_at<A>(a: Seq<A>, b: Seq<A>, ks: Seq<int>) -> bool {
    &&& ks.len() == a.len()
    &&& forall|j: int| 0 <= j < ks.len() ==> 0 <= #[trigger] ks[j] < b.len() && b[ks[j]] == a[j]
    &&& forall|j: int, m: int| 0 <= j < m < ks.len() ==> #[trigger] ks[j] < #[trigger] ks[m]
}

/// Where each top-level match stands among all the matches.
pub open spec fn direct_positions(items: Seq<ItemView>, name: Seq<char>) -> Seq<int>
    decreases items.len(),
{
    if items.len() == 0 {
        seq![]
    } else {
        let dl = items.drop_last();
        direct_positions(dl, name) + match items.last() {
            ItemView::Directive(d) => if d.name == name {
                seq![spec_directives_recursive(dl, name).len() as int]
            } else {
                seq![]
            },
            ItemView::Block(_) => seq![],
        }
    }
}

/// The directives that `find_directives_direct` finds stand, in the same
/// order, among those that `find_directives_recursive` finds; where `items`
/// holds no block, the two are the same.
pub proof fn law_direct_subsequence_of_recursive(items: Seq<ItemView>, name: Seq<char>)
    ensures
        is_subsequence_at(
            spec_directives_direct(items, name),
            spec_directives_recursive(items, name),
            direct_positions(items, name),
        ),
        (forall|i: int| 0 <= i < items.len() ==> (#[trigger] items[i]) is Directive)
            ==> spec_directives_direct(items, name) == spec_directives_recursive(items, name),
    decreases items.len(),
{
    if items.len() > 0 {
        let dl = items.drop_last();
        law_direct_subsequence_of_recursive(dl, name);
        let a = spec_directives_direct(items, name);
        let b = spec_directives_recursive(items, name);
        let ks = direct_positions(items, name);
        let a0 = spec_directives_direct(dl, name);
        let b0 = spec_directives_recursive(dl, name);
        let ks0 = direct_positions(dl, name);
        assert forall|j: int| 0 <= j < ks.len() implies 0 <= #[trigger] ks[j] < b.len() && b[ks[j]] == a[j] by {
            if j < ks0.len() {
                assert(ks[j] == ks0[j]);
                assert(a[j] == a0[j]);
                assert(b[ks0[j]] == b0[ks0[j]]);
            }
        }
        assert forall|j: int, m: int| 0 <= j < m < ks.len() implies #[trigger] ks[j] < #[trigger] ks[m] by {
            if m < ks0.len() {
                assert(ks[j] == ks0[j] && ks[m] == ks0[m]);
            } else {
                assert(ks[j] == ks0[j]);
            }
        }
        if forall|i: int| 0 <= i < items.len() ==> (#[trigger] items[i]) is Directive {
            assert forall|i: int| 0 <= i < dl.len() implies (#[trigger] dl[i]) is Directive by {
                assert(dl[i] == items[i]);
            }
            assert(items[items.len() - 1] is Directive);
        }
    }
}

} // verus!

verus! {

/// Whether an item is a directive named `name`.
pub open spec fn is_directive_named(item: ItemView, name: Seq<char>) -> bool {
    match item {
        ItemView::Directive(d) => d.name == name,
        ItemView::Block(_) => false,
    }
}

/// Whether a directive named `name` stands at the top level of `items`.
pub open spec fn has_top_level_directive(items: Seq<ItemView>, name: Seq<char>) -> bool {
    exists|i: int| 0 <= i < items.len() && is_directive_named(#[trigger] items[i], name)
}

/// A directive named `name` at the top level of `items` is found both by
/// the direct and by the recursive search.
pub proof fn law_top_level_directive_found(items: Seq<ItemView>, name: Seq<char>, i: int, d: DirectiveView)
    requires
        0 <= i < items.len(),
        items[i] == ItemView::Directive(d),
        d.name == name,
    ensures
        spec_directives_direct(items, name).contains(d),
        spec_directives_recursive(items, name).contains(d),
    decreases items.len(),
{
    let dl = items.drop_last();
    let a0 = spec_directives_direct(dl, name);
    let b0 = spec_directives_recursive(dl, name);
    let a = spec_directives_direct(items, name);
    let b = spec_directives_recursive(items, name);
    if i == items.len() - 1 {
        assert(a[a0.len() as int] == d);
        assert(b[b0.len() as int] == d);
    } else {
        assert(dl[i] == items[i]);
        law_top_level_directive_found(dl, name, i, d);
        let k = choose|k: int| 0 <= k < a0.len() && a0[k] == d;
        assert(a[k] == d);
        let m = choose|m: int| 0 <= m < b0.len() && b0[m] == d;
        assert(b[m] == d);
    }
}

/// The recursive search is closed under nesting: whatever it finds in the
/// body of a block of `items`, it finds in `items`.
pub proof fn law_recursive_closed_under_nesting(items: Seq<ItemView>, name: Seq<char>, i: int, b: BlockView)
    requires
        0 <= i < items.len(),
        items[i] == ItemView::Block(b),
    ensures
        forall|k: int|
            0 <= k < spec_directives_recursive(b.body, name).len() ==> spec_directives_recursive(
                items,
                name,
            ).contains(#[trigger] spec_directives_recursive(b.body, name)[k]),
    decreases items.len(),
{
    let dl = items.drop_last();
    let r0 = spec_directives_recursive(dl, name);
    let r = spec_directives_recursive(items, name);
    let inner = spec_directives_recursive(b.body, name);
    if i == items.len() - 1 {
        assert forall|k: int| 0 <= k < inner.len() implies r.contains(#[trigger] inner[k]) by {
            assert(r[r0.len() + k] == inner[k]);
        }
    } else {
        assert(dl[i] == items[i]);
        law_recursive_closed_under_nesting(dl, name, i, b);
        assert forall|k: int| 0 <= k < inner.len() implies r.contains(#[trigger] inner[k]) by {
            assert(r0.contains(inner[k]));
            let m = choose|m: int| 0 <= m < r0.len() && r0[m] == inner[k];
            assert(r[m] == inner[k]);
        }
    }
}

/// The direct search finds nothing when no directive of that name stands
/// at the top level, and something when one does.
pub proof fn law_direct_nonempty_iff_top_level(items: Seq<ItemView>, name: Seq<char>)
    ensures
        spec_directives_direct(items, name).len() > 0 <==> has_top_level_directive(items, name),
    decreases items.len(),
{
    if items.len() > 0 {
        let dl = items.drop_last();
        law_direct_nonempty_iff_top_level(dl, name);
        if has_top_level_directive(items, name) {
            let i = choose|i: int| 0 <= i < items.len() && is_directive_named(#[trigger] items[i], name);
            match items[i] {
                ItemView::Directive(d) => {
                    law_top_level_directive_found(items, name, i, d);
                },
                ItemView::Block(_) => {},
            }
        }
        if spec_directives_direct(dl, name).len() > 0 {
            let i = choose|i: int| 0 <= i < dl.len() && is_directive_named(#[trigger] dl[i], name);
            assert(items[i] == dl[i]);
        }
        if spec_directives_direct(items, name).len() > spec_directives_direct(dl, name).len() {
            assert(items[items.len() - 1] == items.last());
        }
    }
}

/// Every directive the direct search finds has the name asked for and
/// stands at the top level of `items`.
pub proof fn law_direct_results_are_top_level(items: Seq<ItemView>, name: Seq<char>)
    ensures
        forall|k: int|
            0 <= k < spec_directives_direct(items, name).len() ==> (#[trigger] spec_directives_direct(
                items,
                name,
            )[k]).name == name && exists|i: int|
                0 <= i < items.len() && items[i] == ItemView::Directive(spec_directives_direct(items, name)[k]),
    decreases items.len(),
{
    if items.len() > 0 {
        let dl = items.drop_last();
        law_direct_results_are_top_level(dl, name);
        let a0 = spec_directives_direct(dl, name);
        let a = spec_directives_direct(items, name);
        assert forall|k: int| 0 <= k < a.len() implies (#[trigger] a[k]).name == name && exists|i: int|
            0 <= i < items.len() && items[i] == ItemView::Directive(a[k]) by {
            if k < a0.len() {
                assert(a[k] == a0[k]);
                let i = choose|i: int| 0 <= i < dl.len() && dl[i] == ItemView::Directive(a0[k]);
                assert(items[i] == dl[i]);
            } else {
                assert(items[items.len() - 1] == ItemView::Directive(a[k]));
            }
        }
    }
}

} // verus!
