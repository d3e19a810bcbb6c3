//! A small nginx config parser.
//!
//! It handles the shape that matters for linting: nested `block { ... }`
//! groups and `directive arg1 arg2;` statements, comments, and quoted
//! arguments, with a line number attached to every directive and block.
//! Nginx's grammar has corners it does not attempt (`if`, embedded Lua,
//! `map` blocks with braces inside regex keys).

use vstd::prelude::*;
use crate::text::{is_whitespace, spec_is_whitespace, str_eq, string_push, chars_of};

verus! {

/// A `name arg1 arg2 ...;` statement, with the line its name is on.
#[derive(Debug, Clone, PartialEq)]
pub struct Directive {
    pub name: String,
    pub args: Vec<String>,
    pub line: usize,
}

/// A `name arg1 ... { body }` group, with the line its name is on (or, for
/// a block without a name, the line of its `{`).
#[derive(Debug, PartialEq)]
pub struct Block {
    pub name: String,
    pub args: Vec<String>,
    pub body: Vec<Item>,
    pub line: usize,
}

/// One statement of a config: a directive or a block.
#[derive(Debug, PartialEq)]
pub enum Item {
    Directive(Directive),
    Block(Block),
}

/// A directive as values: its name, its arguments and its line.
pub struct DirectiveView {
    pub name: Seq<char>,
    pub args: Seq<Seq<char>>,
    pub line: nat,
}

/// A block as values: its name, its arguments, its body and its line.
pub struct BlockView {
    pub name: Seq<char>,
    pub args: Seq<Seq<char>>,
    pub body: Seq<ItemView>,
    pub line: nat,
}

/// An item as values.
pub enum ItemView {
    Directive(DirectiveView),
    Block(BlockView),
}

/// The characters of each string.
pub open spec fn strings_view(s: Seq<String>) -> Seq<Seq<char>> {
    s.map_values(|x: String| x@)
}

impl View for Directive {
    type V = DirectiveView;

    open spec fn view(&self) -> DirectiveView {
        DirectiveView { name: self.name@, args: strings_view(self.args@), line: self.line as nat }
    }
}

/// A block as values, its body included.
pub open spec fn block_view(b: Block) -> BlockView
    decreases b,
{
    BlockView { name: b.name@, args: strings_view(b.args@), body: items_view(b.body@), line: b.line as nat }
}

/// An item as values.
pub open spec fn item_view(item: Item) -> ItemView
    decreases item,
{
    match item {
        Item::Directive(d) => ItemView::Directive(d@),
        Item::Block(b) => ItemView::Block(block_view(b)),
    }
}

/// Each item as values, in order.
pub open spec fn items_view(items: Seq<Item>) -> Seq<ItemView>
    decreases items,
{
    if items.len() == 0 {
        seq![]
    } else {
        items_view(items.drop_last()).push(item_view(items.last()))
    }
}

proof fn lemma_items_view_take(items: Seq<Item>, i: int)
    requires
        0 <= i < items.len(),
    ensures
        items_view(items.take(i + 1)) == items_view(items.take(i)).push(item_view(items[i])),
{
    assert(items.take(i + 1).drop_last() =~= items.take(i));
}

/// One lexical token of a config file: a word, a quoted string (without its
/// quotes), or one of `{`, `}`, `;`, with the line it starts on.
#[derive(Debug, Clone, PartialEq)]
pub struct Token {
    pub text: String,
    pub line: usize,
}

/// A token as values.
pub struct TokenView {
    pub text: Seq<char>,
    pub line: nat,
}

impl View for Token {
    type V = TokenView;

    open spec fn view(&self) -> TokenView {
        TokenView { text: self.text@, line: self.line as nat }
    }
}

/// Each token as values, in order.
pub open spec fn tokens_view(ts: Seq<Token>) -> Seq<TokenView> {
    ts.map_values(|t: Token| t@)
}

/// The first index at or after `i` that holds `c`, or `s.len()` when there
/// is none.
pub open spec fn find_char(s: Seq<char>, i: int, c: char) -> int
    decreases s.len() - i,
{
    if i >= s.len() {
        s.len() as int
    } else if s[i] == c {
        i
    } else {
        find_char(s, i + 1, c)
    }
}

/// A character that ends a bare word.
pub open spec fn is_word_break(c: char) -> bool {
    spec_is_whitespace(c) || c == '{' || c == '}' || c == ';' || c == '#'
}

/// The first index at or after `i` that holds a word break, or `s.len()`.
pub open spec fn word_end(s: Seq<char>, i: int) -> int
    decreases s.len() - i,
{
    if i >= s.len() {
        s.len() as int
    } else if is_word_break(s[i]) {
        i
    } else {
        word_end(s, i + 1)
    }
}

/// How many `\n` characters `t` holds.
pub open spec fn count_newlines(t: Seq<char>) -> nat
    decreases t.len(),
{
    if t.len() == 0 {
        0
    } else {
        count_newlines(t.drop_last()) + if t.last() == '\n' { 1nat } else { 0nat }
    }
}

pub proof fn lemma_find_char_bounds(s: Seq<char>, i: int, c: char)
    requires
        0 <= i <= s.len(),
    ensures
        i <= find_char(s, i, c) <= s.len(),
        find_char(s, i, c) < s.len() ==> s[find_char(s, i, c)] == c,
        forall|k: int| i <= k < find_char(s, i, c) ==> s[k] != c,
    decreases s.len() - i,
{
    if i < s.len() && s[i] != c {
        lemma_find_char_bounds(s, i + 1, c);
    }
}

pub proof fn lemma_word_end_bounds(s: Seq<char>, i: int)
    requires
        0 <= i <= s.len(),
    ensures
        i <= word_end(s, i) <= s.len(),
        i < s.len() && !is_word_break(s[i]) ==> i < word_end(s, i),
        word_end(s, i) < s.len() ==> is_word_break(s[word_end(s, i)]),
        forall|k: int| i <= k < word_end(s, i) ==> !is_word_break(s[k]),
    decreases s.len() - i,
{
    if i < s.len() && !is_word_break(s[i]) {
        lemma_word_end_bounds(s, i + 1);
    }
}

pub proof fn lemma_count_newlines_le(t: Seq<char>)
    ensures
        count_newlines(t) <= t.len(),
    decreases t.len(),
{
    if t.len() > 0 {
        lemma_count_newlines_le(t.drop_last());
    }
}

/// The tokens of `s` from index `i` on, when line `line` starts there (or
/// the current line is `line`).
pub open spec fn tokens_from(s: Seq<char>, i: int, line: nat) -> Seq<TokenView>
    decreases s.len() - i,
{
    if i < 0 || i >= s.len() {
        seq![]
    } else {
        let c = s[i];
        if c == '\n' {
            tokens_from(s, i + 1, line + 1)
        } else if spec_is_whitespace(c) {
            tokens_from(s, i + 1, line)
        } else if c == '#' {
            // a comment runs to the end of its line
            let e = find_char(s, i, '\n');
            proof {
                lemma_find_char_bounds(s, i, '\n');
            }
            if e < s.len() {
                tokens_from(s, e + 1, line + 1)
            } else {
                seq![]
            }
        } else if c == '{' || c == '}' || c == ';' {
            seq![TokenView { text: seq![c], line }] + tokens_from(s, i + 1, line)
        } else if c == '"' || c == '\'' {
            // a quoted string runs to the matching quote, or to the end
            let e = find_char(s, i + 1, c);
            proof {
                lemma_find_char_bounds(s, i + 1, c);
            }
            let text = s.subrange(i + 1, e);
            let next = if e < s.len() { e + 1 } else { e };
            seq![TokenView { text, line }] + tokens_from(s, next, line + count_newlines(text))
        } else {
            let e = word_end(s, i);
            proof {
                lemma_word_end_bounds(s, i);
            }
            seq![TokenView { text: s.subrange(i, e), line }] + tokens_from(s, e, line)
        }
    }
}

/// The tokens of a whole config text; the first line is line 1.
pub open spec fn spec_tokenize(s: Seq<char>) -> Seq<TokenView> {
    tokens_from(s, 0, 1)
}


fn is_word_break_char(c: char) -> (res: bool)
    ensures
        res == is_word_break(c),
{
    is_whitespace(c) || c == '{' || c == '}' || c == ';' || c == '#'
}

/// Splits a config text into tokens: comments (`#` to the end of the line)
/// and whitespace are dropped, `{`, `}` and `;` stand alone, quoted strings
/// keep their spaces, and every token carries the line it starts on.
pub fn tokenize(input: &str) -> (tokens: Vec<Token>)
    requires
        input@.len() < usize::MAX,
    ensures
        tokens_view(tokens@) == spec_tokenize(input@),
{
    let s = chars_of(input);
    let n = s.len();
    let mut tokens: Vec<Token> = Vec::new();
    let mut i: usize = 0;
    let mut line: usize = 1;
    while i < n
        invariant
            n == s@.len(),
            s@ == input@,
            n < usize::MAX,
            i <= n,
            1 <= line <= i + 1,
            tokens_view(tokens@) + tokens_from(s@, i as int, line as nat) == spec_tokenize(s@),
        decreases n - i,
    {
        let c = s[i];
        let ghost prev = tokens@;
        let ghost old_i = i as int;
        let ghost old_line = line as nat;
        if c == '\n' {
            line += 1;
            i += 1;
        } else if is_whitespace(c) {
            i += 1;
        } else if c == '#' {
            proof {
                lemma_find_char_bounds(s@, i as int, '\n');
            }
            let mut j = i;
            while j < n && s[j] != '\n'
                invariant
                    n == s@.len(),
                    old_i <= j <= n,
                    find_char(s@, old_i, '\n') == find_char(s@, j as int, '\n'),
                decreases n - j,
            {
                j += 1;
            }
            if j < n {
                line += 1;
                i = j + 1;
            } else {
                i = n;
            }
        } else if c == '{' || c == '}' || c == ';' {
            let mut text = String::new();
            string_push(&mut text, c);
            tokens.push(Token { text, line });
            i += 1;
            assert(tokens_view(tokens@) =~= tokens_view(prev).push(
                TokenView { text: seq![c], line: line as nat },
            ));
        } else if c == '"' || c == '\'' {
            let start_line = line;
            let mut text = String::new();
            let mut j = i + 1;
            proof {
                lemma_find_char_bounds(s@, old_i + 1, c);
            }
            while j < n && s[j] != c
                invariant
                    n == s@.len(),
                    n < usize::MAX,
                    old_i + 1 <= j <= n,
                    start_line <= old_i + 1,
                    find_char(s@, old_i + 1, c) == find_char(s@, j as int, c),
                    text@ == s@.subrange(old_i + 1, j as int),
                    line == start_line + count_newlines(s@.subrange(old_i + 1, j as int)),
                    line <= j,
                decreases n - j,
            {
                let c2 = s[j];
                proof {
                    lemma_count_newlines_le(s@.subrange(old_i + 1, j as int));
                }
                if c2 == '\n' {
                    line += 1;
                }
                string_push(&mut text, c2);
                j += 1;
                assert(s@.subrange(old_i + 1, j as int).drop_last() =~= s@.subrange(old_i + 1, j - 1));
            }
            tokens.push(Token { text, line: start_line });
            i = if j < n {
                j + 1
            } else {
                j
            };
            assert(tokens_view(tokens@) =~= tokens_view(prev).push(
                TokenView { text: s@.subrange(old_i + 1, j as int), line: start_line as nat },
            ));
        } else {
            let mut text = String::new();
            let mut j = i;
            proof {
                lemma_word_end_bounds(s@, old_i);
            }
            while j < n && !is_word_break_char(s[j])
                invariant
                    n == s@.len(),
                    0 <= old_i <= j <= n,
                    word_end(s@, old_i) == word_end(s@, j as int),
                    text@ == s@.subrange(old_i, j as int),
                decreases n - j,
            {
                let c2 = s[j];
                string_push(&mut text, c2);
                j += 1;
                assert(s@.subrange(old_i, j as int).drop_last() =~= s@.subrange(old_i, j - 1));
            }
            tokens.push(Token { text, line });
            i = j;
            assert(tokens_view(tokens@) =~= tokens_view(prev).push(
                TokenView { text: s@.subrange(old_i, j as int), line: line as nat },
            ));
        }
    }
    assert(tokens_view(tokens@) =~= tokens_view(tokens@) + tokens_from(s@, i as int, line as nat));
    tokens
}

/// Whether a token is exactly the one punctuation character `c`.
pub open spec fn is_punct(t: TokenView, c: char) -> bool {
    t.text == seq![c]
}

/// The first index at or after `p` whose token is `;` or `{`, or `t.len()`.
pub open spec fn statement_end(t: Seq<TokenView>, p: int) -> int
    decreases t.len() - p,
{
    if p >= t.len() {
        t.len() as int
    } else if is_punct(t[p], ';') || is_punct(t[p], '{') {
        p
    } else {
        statement_end(t, p + 1)
    }
}

pub proof fn lemma_statement_end_bounds(t: Seq<TokenView>, p: int)
    requires
        0 <= p <= t.len(),
    ensures
        p <= statement_end(t, p) <= t.len(),
        statement_end(t, p) < t.len() ==> (is_punct(t[statement_end(t, p)], ';') || is_punct(
            t[statement_end(t, p)],
            '{',
        )),
    decreases t.len() - p,
{
    if p < t.len() && !(is_punct(t[p], ';') || is_punct(t[p], '{')) {
        lemma_statement_end_bounds(t, p + 1);
    }
}

/// The text of each token, in order.
pub open spec fn texts(t: Seq<TokenView>) -> Seq<Seq<char>> {
    t.map_values(|x: TokenView| x.text)
}

/// The items of the token sequence `t` from index `p` up to the `}` that
/// closes the enclosing block (or the end of `t`), together with the index
/// just after what was read.
///
/// A statement is the run of tokens up to the next `;` or `{`. With `;` it
/// is a directive (an empty statement is skipped); with `{` it opens a block
/// whose body is read recursively. A trailing statement with neither is
/// dropped.
pub open spec fn parse_from(t: Seq<TokenView>, p: int) -> (Seq<ItemView>, int)
    decreases t.len() - p,
{
    if p < 0 || p >= t.len() {
        (seq![], p)
    } else if is_punct(t[p], '}') {
        (seq![], p + 1)
    } else {
        let e = statement_end(t, p);
        proof {
            lemma_statement_end_bounds(t, p);
        }
        if e >= t.len() {
            (seq![], e)
        } else if is_punct(t[e], ';') {
            let (rest, q) = parse_from(t, e + 1);
            if e == p {
                (rest, q)
            } else {
                (
                    seq![
                        ItemView::Directive(
                            DirectiveView {
                                name: t[p].text,
                                args: texts(t.subrange(p + 1, e)),
                                line: t[p].line,
                            },
                        ),
                    ] + rest,
                    q,
                )
            }
        } else {
            let (body, q) = parse_from(t, e + 1);
            let after = if e + 1 <= q <= t.len() {
                q
            } else {
                e + 1
            };
            let (rest, r) = parse_from(t, after);
            let block = BlockView {
                name: if e > p {
                    t[p].text
                } else {
                    seq![]
                },
                args: if e > p {
                    texts(t.subrange(p + 1, e))
                } else {
                    seq![]
                },
                body,
                line: if e > p {
                    t[p].line
                } else {
                    t[e].line
                },
            };
            (seq![ItemView::Block(block)] + rest, r)
        }
    }
}

/// The items of a whole config text.
pub open spec fn spec_parse(s: Seq<char>) -> Seq<ItemView> {
    parse_from(spec_tokenize(s), 0).0
}

fn is_punct_token(t: &Token, c: char) -> (res: bool)
    ensures
        res == is_punct(t@, c),
{
    let cs = chars_of(t.text.as_str());
    let r = cs.len() == 1 && cs[0] == c;
    assert(r ==> cs@ =~= seq![c]);
    r
}

fn token_texts(tokens: &[Token], from: usize, to: usize) -> (args: Vec<String>)
    requires
        from <= to <= tokens.len(),
    ensures
        strings_view(args@) == texts(tokens_view(tokens@).subrange(from as int, to as int)),
{
    let mut args: Vec<String> = Vec::new();
    let mut k = from;
    while k < to
        invariant
            from <= k <= to <= tokens.len(),
            strings_view(args@) == texts(tokens_view(tokens@).subrange(from as int, k as int)),
        decreases to - k,
    {
        let ghost prev = args@;
        let txt = tokens[k].text.clone();
        args.push(txt);
        k += 1;
        assert(strings_view(args@) =~= strings_view(prev).push(tokens@[k - 1].text@));
        assert(tokens_view(tokens@).subrange(from as int, k as int) =~= tokens_view(tokens@).subrange(
            from as int,
            k - 1,
        ).push(tokens@[k - 1]@));
        assert(strings_view(args@) =~= texts(tokens_view(tokens@).subrange(from as int, k as int)));
    }
    args
}

/// Reads the items from token `*pos` on, up to the `}` that closes the
/// enclosing block (which it consumes) or the end of the tokens, and leaves
/// `*pos` just after what it read: further on whenever there was something
/// to read, and unchanged (with no items) at the end of the tokens.
pub fn parse_items(tokens: &[Token], pos: &mut usize) -> (items: Vec<Item>)
    requires
        *old(pos) <= tokens.len(),
    ensures
        items_view(items@) == parse_from(tokens_view(tokens@), *old(pos) as int).0,
        *final(pos) as int == parse_from(tokens_view(tokens@), *old(pos) as int).1,
        *old(pos) <= *final(pos) <= tokens.len(),
        *old(pos) < tokens.len() ==> *old(pos) < *final(pos),
        *old(pos) == tokens.len() ==> items@.len() == 0 && *final(pos) == *old(pos),
    decreases tokens.len() - *old(pos),
{
    let ghost t = tokens_view(tokens@);
    let ghost p0 = *pos as int;
    let mut items: Vec<Item> = Vec::new();
    loop
        invariant
            t == tokens_view(tokens@),
            p0 == *old(pos),
            p0 <= *pos <= tokens.len(),
            *pos == p0 ==> items@.len() == 0,
            items_view(items@) + parse_from(t, *pos as int).0 == parse_from(t, p0).0,
            parse_from(t, *pos as int).1 == parse_from(t, p0).1,
        decreases tokens.len() - *pos,
    {
        if *pos >= tokens.len() {
            assert(items_view(items@) + parse_from(t, *pos as int).0 =~= items_view(items@));
            return items;
        }
        if is_punct_token(&tokens[*pos], '}') {
            *pos += 1;
            assert(items_view(items@) + parse_from(t, (*pos - 1) as int).0 =~= items_view(items@));
            return items;
        }
        let start = *pos;
        proof {
            lemma_statement_end_bounds(t, start as int);
        }
        while *pos < tokens.len() && !is_punct_token(&tokens[*pos], ';') && !is_punct_token(
            &tokens[*pos],
            '{',
        )
            invariant
                t == tokens_view(tokens@),
                start <= *pos <= tokens.len(),
                statement_end(t, start as int) == statement_end(t, *pos as int),
            decreases tokens.len() - *pos,
        {
            *pos += 1;
        }
        let e = *pos;
        if e >= tokens.len() {
            assert(items_view(items@) + parse_from(t, start as int).0 =~= items_view(items@));
            return items;
        }
        let ghost prev = items@;
        if is_punct_token(&tokens[e], ';') {
            *pos = e + 1;
            if e > start {
                let name = tokens[start].text.clone();
                let args = token_texts(tokens, start + 1, e);
                let line = tokens[start].line;
                let d = Directive { name, args, line };
                items.push(Item::Directive(d));
                proof {
                    assert(items@.drop_last() =~= prev);
                    assert(items@.last() == Item::Directive(d));
                    assert(item_view(Item::Directive(d)) == ItemView::Directive(d@));
                    assert(items_view(items@) == items_view(items@.drop_last()).push(item_view(items@.last())));
                    assert(items_view(items@) == items_view(prev).push(ItemView::Directive(d@)));
                    assert(items_view(items@) + parse_from(t, *pos as int).0 =~= items_view(prev)
                        + parse_from(t, start as int).0);
                }
            }
        } else {
            let name = if e > start {
                tokens[start].text.clone()
            } else {
                String::new()
            };
            let args = if e > start {
                token_texts(tokens, start + 1, e)
            } else {
                let empty: Vec<String> = Vec::new();
                assert(strings_view(empty@) =~= seq![]);
                empty
            };
            let line = if e > start {
                tokens[start].line
            } else {
                tokens[e].line
            };
            *pos = e + 1;
            let body = parse_items(tokens, pos);
            let b = Block { name, args, body, line };
            items.push(Item::Block(b));
            proof {
                assert(items@.drop_last() =~= prev);
                assert(items_view(items@) == items_view(prev).push(ItemView::Block(block_view(b))));
                assert(items_view(items@) + parse_from(t, *pos as int).0 =~= items_view(prev)
                    + parse_from(t, start as int).0);
            }
        }
    }
}

/// Parses a full nginx config file's text into its top-level items
/// (directives and blocks), recursing into nested blocks.
pub fn parse(input: &str) -> (items: Vec<Item>)
    requires
        input@.len() < usize::MAX,
    ensures
        items_view(items@) == spec_parse(input@),
{
    let tokens = tokenize(input);
    let mut pos: usize = 0;
    parse_items(&tokens, &mut pos)
}

/// Every directive named `name` in `items`, in document order, descending
/// into nested blocks.
pub open spec fn spec_directives_recursive(items: Seq<ItemView>, name: Seq<char>) -> Seq<DirectiveView>
    decreases items,
{
    if items.len() == 0 {
        seq![]
    } else {
        spec_directives_recursive(items.drop_last(), name) + match items.last() {
            ItemView::Directive(d) => if d.name == name { seq![d] } else { seq![] },
            ItemView::Block(b) => spec_directives_recursive(b.body, name),
        }
    }
}

/// Every directive named `name` at the top level of `items`, in order.
pub open spec fn spec_directives_direct(items: Seq<ItemView>, name: Seq<char>) -> Seq<DirectiveView>
    decreases items.len(),
{
    if items.len() == 0 {
        seq![]
    } else {
        spec_directives_direct(items.drop_last(), name) + match items.last() {
            ItemView::Directive(d) => if d.name == name { seq![d] } else { seq![] },
            ItemView::Block(_) => seq![],
        }
    }
}

/// Every block named `name` in `items`, in document order (a block comes
/// before the blocks nested in it).
pub open spec fn spec_blocks_recursive(items: Seq<ItemView>, name: Seq<char>) -> Seq<BlockView>
    decreases items,
{
    if items.len() == 0 {
        seq![]
    } else {
        spec_blocks_recursive(items.drop_last(), name) + match items.last() {
            ItemView::Directive(_) => seq![],
            ItemView::Block(b) => (if b.name == name { seq![b] } else { seq![] })
                + spec_blocks_recursive(b.body, name),
        }
    }
}

/// Each referenced directive as values, in order.
pub open spec fn directive_refs_view(ds: Seq<&Directive>) -> Seq<DirectiveView> {
    ds.map_values(|d: &Directive| d@)
}

/// Each referenced block as values, in order.
pub open spec fn block_refs_view(bs: Seq<&Block>) -> Seq<BlockView> {
    bs.map_values(|b: &Block| block_view(*b))
}

/// Recursively finds every directive named `name` anywhere in `items`,
/// descending into nested blocks.
pub fn find_directives_recursive<'a>(items: &'a [Item], name: &str) -> (found: Vec<&'a Directive>)
    ensures
        directive_refs_view(found@) == spec_directives_recursive(items_view(items@), name@),
    decreases items@,
{
    let mut found: Vec<&'a Directive> = Vec::new();
    let mut i: usize = 0;
    while i < items.len()
        invariant
            i <= items.len(),
            directive_refs_view(found@) == spec_directives_recursive(items_view(items@.take(i as int)), name@),
        decreases items.len() - i,
    {
        proof {
            lemma_items_view_take(items@, i as int);
        }
        let ghost prev = found@;
        let ghost vs = items_view(items@.take(i as int));
        let ghost vnext = vs.push(item_view(items@[i as int]));
        assert(vnext.drop_last() =~= vs);
        match &items[i] {
            Item::Directive(d) => {
                if str_eq(d.name.as_str(), name) {
                    found.push(d);
                    assert(directive_refs_view(found@) =~= directive_refs_view(prev).push(d@));
                }
            },
            Item::Block(b) => {
                let mut inner = find_directives_recursive(&b.body, name);
                found.append(&mut inner);
                assert(directive_refs_view(found@) =~= directive_refs_view(prev) + spec_directives_recursive(items_view(b.body@), name@));
            },
        }
        i += 1;
        assert(directive_refs_view(found@) =~= spec_directives_recursive(items_view(items@.take(i as int)), name@));
    }
    assert(items@.take(i as int) =~= items@);
    found
}


/// Finds every directive named `name` at this level only, not descending
/// into nested blocks.
pub fn find_directives_direct<'a>(items: &'a [Item], name: &str) -> (found: Vec<&'a Directive>)
    ensures
        directive_refs_view(found@) == spec_directives_direct(items_view(items@), name@),
{
    let mut found: Vec<&'a Directive> = Vec::new();
    let mut i: usize = 0;
    while i < items.len()
        invariant
            i <= items.len(),
            directive_refs_view(found@) == spec_directives_direct(items_view(items@.take(i as int)), name@),
        decreases items.len() - i,
    {
        proof {
            lemma_items_view_take(items@, i as int);
        }
        let ghost prev = found@;
        let ghost vs = items_view(items@.take(i as int));
        let ghost vnext = vs.push(item_view(items@[i as int]));
        assert(vnext.drop_last() =~= vs);
        match &items[i] {
            Item::Directive(d) => {
                if str_eq(d.name.as_str(), name) {
                    found.push(d);
                    assert(directive_refs_view(found@) =~= directive_refs_view(prev).push(d@));
                }
            },
            Item::Block(_) => {},
        }
        i += 1;
        assert(directive_refs_view(found@) =~= spec_directives_direct(items_view(items@.take(i as int)), name@));
    }
    assert(items@.take(i as int) =~= items@);
    found
}

/// Recursively finds every block named `name` anywhere in `items`; each
/// block comes before the blocks nested inside it.
pub fn find_blocks_recursive<'a>(items: &'a [Item], name: &str) -> (found: Vec<&'a Block>)
    ensures
        block_refs_view(found@) == spec_blocks_recursive(items_view(items@), name@),
    decreases items@,
{
    let mut found: Vec<&'a Block> = Vec::new();
    let mut i: usize = 0;
    while i < items.len()
        invariant
            i <= items.len(),
            block_refs_view(found@) == spec_blocks_recursive(items_view(items@.take(i as int)), name@),
        decreases items.len() - i,
    {
        proof {
            lemma_items_view_take(items@, i as int);
        }
        let ghost prev = found@;
        let ghost vs = items_view(items@.take(i as int));
        let ghost vnext = vs.push(item_view(items@[i as int]));
        assert(vnext.drop_last() =~= vs);
        match &items[i] {
            Item::Directive(_) => {},
            Item::Block(b) => {
                if str_eq(b.name.as_str(), name) {
                    found.push(b);
                    assert(block_refs_view(found@) =~= block_refs_view(prev).push(block_view(*b)));
                }
                let ghost mid = found@;
                let mut inner = find_blocks_recursive(&b.body, name);
                found.append(&mut inner);
                assert(block_refs_view(found@) =~= block_refs_view(mid) + spec_blocks_recursive(items_view(b.body@), name@));
            },
        }
        i += 1;
        assert(block_refs_view(found@) =~= spec_blocks_recursive(items_view(items@.take(i as int)), name@));
    }
    assert(items@.take(i as int) =~= items@);
    found
}

fn clone_strings(v: &Vec<String>) -> (res: Vec<String>)
    ensures
        strings_view(res@) == strings_view(v@),
{
    let mut out: Vec<String> = Vec::new();
    let mut i: usize = 0;
    while i < v.len()
        invariant
            i <= v.len(),
            strings_view(out@) == strings_view(v@).take(i as int),
        decreases v.len() - i,
    {
        let ghost prev = out@;
        let s = v[i].clone();
        out.push(s);
        i += 1;
        assert(strings_view(out@) =~= strings_view(prev).push(v@[i - 1]@));
        assert(strings_view(out@) =~= strings_view(v@).take(i as int));
    }
    assert(strings_view(v@).take(i as int) =~= strings_view(v@));
    out
}

fn clone_item(item: &Item) -> (res: Item)
    ensures
        item_view(res) == item_view(*item),
    decreases item,
{
    match item {
        Item::Directive(d) => Item::Directive(
            Directive { name: d.name.clone(), args: clone_strings(&d.args), line: d.line },
        ),
        Item::Block(b) => Item::Block(clone_block(b)),
    }
}

fn clone_block(b: &Block) -> (res: Block)
    ensures
        block_view(res) == block_view(*b),
    decreases b,
{
    Block {
        name: b.name.clone(),
        args: clone_strings(&b.args),
        body: clone_items(&b.body),
        line: b.line,
    }
}

fn clone_items(items: &Vec<Item>) -> (res: Vec<Item>)
    ensures
        items_view(res@) == items_view(items@),
    decreases items,
{
    let mut out: Vec<Item> = Vec::new();
    let mut i: usize = 0;
    while i < items.len()
        invariant
            i <= items.len(),
            items_view(out@) == items_view(items@.take(i as int)),
        decreases items.len() - i,
    {
        proof {
            lemma_items_view_take(items@, i as int);
        }
        let ghost prev = out@;
        let c = clone_item(&items[i]);
        out.push(c);
        i += 1;
        assert(out@.drop_last() =~= prev);
    }
    assert(items@.take(i as int) =~= items@);
    out
}

impl Clone for Block {
    fn clone(&self) -> (res: Self)
        ensures
            block_view(res) == block_view(*self),
    {
        clone_block(self)
    }
}

impl Clone for Item {
    fn clone(&self) -> (res: Self)
        ensures
            item_view(res) == item_view(*self),
    {
        clone_item(self)
    }
}


/// Whether every token starts on line `first` or later, and no token starts
/// on an earlier line than the token before it.
pub open spec fn lines_ordered(t: Seq<TokenView>, first: nat) -> bool {
    &&& forall|i: int| 0 <= i < t.len() ==> first <= (#[trigger] t[i]).line
    &&& forall|i: int, j: int| 0 <= i < j < t.len() ==> (#[trigger] t[i]).line <= (#[trigger] t[j]).line
}

proof fn lemma_lines_ordered_cons(tok: TokenView, rest: Seq<TokenView>, first: nat, next: nat)
    requires
        lines_ordered(rest, next),
        first <= tok.line <= next,
    ensures
        lines_ordered(seq![tok] + rest, first),
{
    let t = seq![tok] + rest;
    assert forall|i: int| 0 <= i < t.len() implies first <= (#[trigger] t[i]).line by {
        if i > 0 {
            assert(t[i] == rest[i - 1]);
        }
    }
    assert forall|i: int, j: int| 0 <= i < j < t.len() implies (#[trigger] t[i]).line <= (
    #[trigger] t[j]).line by {
        assert(t[j] == rest[j - 1]);
        if i > 0 {
            assert(t[i] == rest[i - 1]);
        }
    }
}

proof fn lemma_tokens_from_lines(s: Seq<char>, i: int, line: nat)
    ensures
        lines_ordered(tokens_from(s, i, line), line),
    decreases s.len() - i,
{
    if i < 0 || i >= s.len() {
    } else {
        let c = s[i];
        if c == '\n' {
            lemma_tokens_from_lines(s, i + 1, line + 1);
        } else if spec_is_whitespace(c) {
            lemma_tokens_from_lines(s, i + 1, line);
        } else if c == '#' {
            lemma_find_char_bounds(s, i, '\n');
            let e = find_char(s, i, '\n');
            if e < s.len() {
                lemma_tokens_from_lines(s, e + 1, line + 1);
            }
        } else if c == '{' || c == '}' || c == ';' {
            lemma_tokens_from_lines(s, i + 1, line);
            lemma_lines_ordered_cons(TokenView { text: seq![c], line }, tokens_from(s, i + 1, line), line, line);
        } else if c == '"' || c == '\'' {
            lemma_find_char_bounds(s, i + 1, c);
            let e = find_char(s, i + 1, c);
            let text = s.subrange(i + 1, e);
            let next = if e < s.len() {
                e + 1
            } else {
                e
            };
            lemma_tokens_from_lines(s, next, line + count_newlines(text));
            lemma_lines_ordered_cons(
                TokenView { text, line },
                tokens_from(s, next, line + count_newlines(text)),
                line,
                line + count_newlines(text),
            );
        } else {
            lemma_word_end_bounds(s, i);
            let e = word_end(s, i);
            lemma_tokens_from_lines(s, e, line);
            lemma_lines_ordered_cons(TokenView { text: s.subrange(i, e), line }, tokens_from(s, e, line), line, line);
        }
    }
}

/// Every token of a config text carries a line number from 1 on, and the
/// line numbers never go down from one token to the next.
pub proof fn law_token_lines_ordered(s: Seq<char>)
    ensures
        lines_ordered(spec_tokenize(s), 1),
{
    lemma_tokens_from_lines(s, 0, 1);
}

/// Every directive that `find_directives_recursive` finds has the name
/// asked for.
pub proof fn law_directives_recursive_named(items: Seq<ItemView>, name: Seq<char>)
    ensures
        forall|i: int|
            0 <= i < spec_directives_recursive(items, name).len() ==> (
            #[trigger] spec_directives_recursive(items, name)[i]).name == name,
    decreases items,
{
    if items.len() > 0 {
        let dl = items.drop_last();
        law_directives_recursive_named(dl, name);
        let found = spec_directives_recursive(items, name);
        let found_dl = spec_directives_recursive(dl, name);
        match items.last() {
            ItemView::Directive(d) => {},
            ItemView::Block(b) => {
                law_directives_recursive_named(b.body, name);
            },
        }
        assert forall|i: int| 0 <= i < found.len() implies (#[trigger] found[i]).name == name by {
            if i < found_dl.len() {
                assert(found[i] == found_dl[i]);
            } else {
                match items.last() {
                    ItemView::Directive(d) => {},
                    ItemView::Block(b) => {
                        assert(found[i] == spec_directives_recursive(b.body, name)[i - found_dl.len()]);
                    },
                }
            }
        }
    }
}

/// Every block that `find_blocks_recursive` finds has the name asked for.
pub proof fn law_blocks_recursive_named(items: Seq<ItemView>, name: Seq<char>)
    ensures
        forall|i: int|
            0 <= i < spec_blocks_recursive(items, name).len() ==> (#[trigger] spec_blocks_recursive(
                items,
                name,
            )[i]).name == name,
    decreases items,
{
    if items.len() > 0 {
        let dl = items.drop_last();
        law_blocks_recursive_named(dl, name);
        let found = spec_blocks_recursive(items, name);
        let found_dl = spec_blocks_recursive(dl, name);
        match items.last() {
            ItemView::Directive(d) => {},
            ItemView::Block(b) => {
                law_blocks_recursive_named(b.body, name);
            },
        }
        assert forall|i: int| 0 <= i < found.len() implies (#[trigger] found[i]).name == name by {
            if i < found_dl.len() {
                assert(found[i] == found_dl[i]);
            } else {
                match items.last() {
                    ItemView::Directive(d) => {},
                    ItemView::Block(b) => {
                        let own: Seq<BlockView> = if b.name == name {
                            seq![b]
                        } else {
                            seq![]
                        };
                        let k = i - found_dl.len();
                        if k >= own.len() {
                            assert(found[i] == spec_blocks_recursive(b.body, name)[k - own.len()]);
                        }
                    },
                }
            }
        }
    }
}

} // verus!
