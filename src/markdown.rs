//! The Markdown note format: block grammar, inline tokenizer and attachment discovery.
use crate::models::{
    Alignment, Block, ContainerBlock, Inline, LeafBlock, ListStyle, Numbering, NumberingStyle,
    NumberingType,
};
use crate::parsers::{md_heading_level, single_text};
use crate::text::{
    chars_of, find_first, find_spec, has_prefix, join_lines, lemma_find_spec, opt_view, is_blank, is_blank_chars, is_space_char, lines_of,
    lines_of_str, push_all, run_end, run_len, split_chars, split_on, starts_with, string_of,
    subvec, trim, trim_chars, trim_start, trim_start_chars,
};
use vstd::prelude::*;
use vstd::string::StrSliceExecFns;

verus! {

/// Characters that may open an inline span.
pub open spec fn special(c: char) -> bool {
    c == '*' || c == '`' || c == '[' || c == '!' || c == '$' || c == '~'
}

/// Text with no character that opens an inline span.
pub open spec fn plain(s: Seq<char>) -> bool {
    forall|i: int| 0 <= i < s.len() ==> !special(#[trigger] s[i])
}

fn is_special(c: char) -> (r: bool)
    ensures
        r == special(c),
{
    c == '*' || c == '`' || c == '[' || c == '!' || c == '$' || c == '~'
}

/// End of the text before the next `d` from `start`, and the position just past that `d`
/// (both the length when there is none).
pub open spec fn until(s: Seq<char>, start: int, d: Seq<char>) -> (int, int) {
    match find_spec(s, d, start) {
        Some(k) => (k, k + d.len()),
        None => (s.len() as int, s.len() as int),
    }
}

/// The position after skipping, in order, each character of `d[k..]` that comes next.
pub open spec fn consume_from(s: Seq<char>, at: int, d: Seq<char>, k: int) -> int
    decreases d.len() - k,
{
    if k < 0 || k >= d.len() {
        at
    } else if 0 <= at < s.len() && s[at] == d[k] {
        consume_from(s, at + 1, d, k + 1)
    } else {
        consume_from(s, at, d, k + 1)
    }
}

pub open spec fn consume(s: Seq<char>, at: int, d: Seq<char>) -> int {
    consume_from(s, at, d, 0)
}

/// The first index at or after `i` that holds a span-opening character (or the length).
pub open spec fn plain_end(s: Seq<char>, i: int) -> int
    decreases s.len() - i,
{
    if 0 <= i < s.len() && !special(s[i]) {
        plain_end(s, i + 1)
    } else {
        i
    }
}

/// One token of span-level Markdown, as positions in the text.
pub enum Tok {
    /// Text `s[a..b]`.
    Plain(int, int),
    /// Bold (0), italic (1) or strikethrough (2) around `s[a..b]`.
    Emph(int, int, int),
    /// Code `s[a..b]`.
    Code(int, int),
    /// Math `s[a..b]`.
    Math(int, int),
    /// Image with alt text `s[a..b]` and source `s[c..d]`.
    Img(int, int, int, int),
    /// Wiki link `[[s[a..b]]]`.
    Wiki(int, int),
    /// Link with text `s[a..b]` and target `s[c..d]`.
    Link(int, int, int, int),
    /// A `[` with no link after it: the text `[` + `s[a..b]` + `]`.
    Bracket(int, int),
    /// A lone `~` or `!`.
    Lit(char),
}

/// The token that starts at `i`, and where the next one starts.
pub open spec fn step(s: Seq<char>, i: int) -> (Tok, int) {
    let n = s.len() as int;
    let c = s[i];
    if c == '*' {
        if i + 1 < n && s[i + 1] == '*' {
            let (e, j) = until(s, i + 2, seq!['*', '*']);
            (Tok::Emph(0, i + 2, e), consume(s, j, seq!['*', '*']))
        } else {
            let (e, j) = until(s, i + 1, seq!['*']);
            (Tok::Emph(1, i + 1, e), consume(s, j, seq!['*']))
        }
    } else if c == '~' {
        if i + 1 < n && s[i + 1] == '~' {
            let (e, j) = until(s, i + 2, seq!['~', '~']);
            (Tok::Emph(2, i + 2, e), consume(s, j, seq!['~', '~']))
        } else {
            (Tok::Lit('~'), i + 1)
        }
    } else if c == '`' {
        let (e, j) = until(s, i + 1, seq!['`']);
        (Tok::Code(i + 1, e), consume(s, j, seq!['`']))
    } else if c == '!' {
        if i + 1 < n && s[i + 1] == '[' {
            let (e, j) = until(s, i + 2, seq![']']);
            let j2 = consume(s, j, seq![']']);
            if j2 < n && s[j2] == '(' {
                let (e2, k) = until(s, j2 + 1, seq![')']);
                (Tok::Img(i + 2, e, j2 + 1, e2), consume(s, k, seq![')']))
            } else {
                (Tok::Lit('!'), i + 1)
            }
        } else {
            (Tok::Lit('!'), i + 1)
        }
    } else if c == '$' {
        let (e, j) = until(s, i + 1, seq!['$']);
        (Tok::Math(i + 1, e), consume(s, j, seq!['$']))
    } else if c == '[' {
        if i + 1 < n && s[i + 1] == '[' {
            let (e, j) = until(s, i + 2, seq![']', ']']);
            (Tok::Wiki(i + 2, e), consume(s, j, seq![']', ']']))
        } else {
            let (e, j) = until(s, i + 1, seq![']']);
            let j2 = consume(s, j, seq![']']);
            if j2 < n && s[j2] == '(' {
                let (e2, k) = until(s, j2 + 1, seq![')']);
                (Tok::Link(i + 1, e, j2 + 1, e2), consume(s, k, seq![')']))
            } else {
                (Tok::Bracket(i + 1, e), j2)
            }
        }
    } else {
        (Tok::Plain(i, plain_end(s, i)), plain_end(s, i))
    }
}

/// The tokens of `s` from `i` on.
pub open spec fn toks(s: Seq<char>, i: int) -> Seq<Tok>
    decreases s.len() - i,
{
    if i < 0 || i >= s.len() {
        Seq::empty()
    } else {
        let (t, next) = step(s, i);
        if next <= i || next > s.len() {
            seq![t]
        } else {
            seq![t] + toks(s, next)
        }
    }
}

/// `r` is what span-level parsing yields for `s`: one inline per token, nested spans parsed
/// in turn.
pub open spec fn inl_rel(s: Seq<char>, r: Seq<Inline>) -> bool
    decreases s.len(), 2int, 0int,
{
    r.len() == toks(s, 0).len() && rel_from(s, toks(s, 0), r, 0)
}

pub open spec fn rel_from(s: Seq<char>, ts: Seq<Tok>, r: Seq<Inline>, k: int) -> bool
    decreases s.len(), 1int, r.len() - k,
{
    if k < 0 || k >= r.len() {
        true
    } else if k >= ts.len() {
        false
    } else {
        tok_rel(s, ts[k], r[k]) && rel_from(s, ts, r, k + 1)
    }
}

/// The inline `x` is what token `t` of `s` stands for.
pub open spec fn tok_rel(s: Seq<char>, t: Tok, x: Inline) -> bool
    decreases s.len(), 0int, 0int,
{
    match t {
        Tok::Plain(a, b) => x matches Inline::Text { text } && text@ == s.subrange(a, b),
        Tok::Emph(kind, a, b) => 0 < a <= b <= s.len() && match x {
            Inline::Bold { content } => kind == 0 && inl_rel(s.subrange(a, b), content@),
            Inline::Italic { content } => kind == 1 && inl_rel(s.subrange(a, b), content@),
            Inline::Strikethrough { content } => kind == 2 && inl_rel(s.subrange(a, b), content@),
            _ => false,
        },
        Tok::Code(a, b) => x matches Inline::Code { code } && code@ == s.subrange(a, b),
        Tok::Math(a, b) => x matches Inline::Math { content } && content@ == s.subrange(a, b),
        Tok::Img(a, b, c, d) => x matches Inline::Image { alt_text, src } && src@ == s.subrange(c, d)
            && (if a == b {
            alt_text is None
        } else {
            alt_text matches Some(al) && al@ == s.subrange(a, b)
        }),
        Tok::Wiki(a, b) => x matches Inline::Link { text, target } && target@ == s.subrange(a, b)
            && single_text(text@, s.subrange(a, b)),
        Tok::Link(a, b, c, d) => 0 < a <= b <= s.len() && match x {
            Inline::Link { text, target } => target@ == s.subrange(c, d) && inl_rel(
                s.subrange(a, b),
                text@,
            ),
            _ => false,
        },
        Tok::Bracket(a, b) => x matches Inline::Text { text } && text@ == seq!['['] + s.subrange(a, b)
            + seq![']'],
        Tok::Lit(c) => x matches Inline::Text { text } && text@ == seq![c],
    }
}

proof fn lemma_rel_from(s: Seq<char>, ts: Seq<Tok>, r: Seq<Inline>, k: int)
    requires
        0 <= k <= r.len(),
        r.len() == ts.len(),
        forall|m: int| 0 <= m < r.len() ==> tok_rel(s, ts[m], #[trigger] r[m]),
    ensures
        rel_from(s, ts, r, k),
    decreases r.len() - k,
{
    if k < r.len() {
        lemma_rel_from(s, ts, r, k + 1);
    }
}

/// The text from `start` up to the next `delim`, and the position just past that delimiter
/// (or the end when there is none). An empty delimiter matches at once.
pub fn parse_until(cs: &Vec<char>, start: usize, delim: &Vec<char>) -> (r: (Vec<char>, usize))
    requires
        start <= cs.len(),
    ensures
        r.0@ == cs@.subrange(start as int, until(cs@, start as int, delim@).0),
        r.1 == until(cs@, start as int, delim@).1,
        start <= until(cs@, start as int, delim@).0 <= r.1 <= cs.len(),
        r.0@.len() <= cs.len() - start,
        delim@.len() == 0 ==> r.0@.len() == 0 && r.1 == start,
{
    proof {
        lemma_find_spec(cs@, delim@, start as int);
        if delim@.len() == 0 {
            assert(cs@.subrange(start as int, start as int) =~= delim@);
            assert(crate::text::occurs_at(cs@, delim@, start as int));
        }
    }
    match find_first(cs, delim, start) {
        Some(k) => (subvec(cs, start, k), k + delim.len()),
        None => (subvec(cs, start, cs.len()), cs.len()),
    }
}

/// Skips each character of `delim` that comes next, in order.
pub fn consume_delimiter(cs: &Vec<char>, at: usize, delim: &Vec<char>) -> (r: usize)
    requires
        at <= cs.len(),
    ensures
        r == consume(cs@, at as int, delim@),
        at <= r <= cs.len(),
{
    let mut i: usize = at;
    let mut k: usize = 0;
    while k < delim.len()
        invariant
            at <= i <= cs.len(),
            k <= delim.len(),
            consume_from(cs@, i as int, delim@, k as int) == consume(cs@, at as int, delim@),
        decreases delim.len() - k,
    {
        if i < cs.len() && cs[i] == delim[k] {
            i = i + 1;
        }
        k = k + 1;
    }
    i
}

fn text_of(v: &Vec<char>) -> (r: Inline)
    ensures
        r matches Inline::Text { text } && text@ == v@,
{
    Inline::Text { text: string_of(v) }
}

/// Tokenizes span-level Markdown: emphasis, strike, code, math, images, links and wiki links.
/// Unclosed delimiters keep the text that was scanned.
#[verifier::rlimit(60)]
pub fn parse_inlines_chars(cs: &Vec<char>) -> (r: Vec<Inline>)
    ensures
        inl_rel(cs@, r@),
        cs@.len() == 0 ==> r@.len() == 0,
        cs@.len() > 0 && plain(cs@) ==> single_text(r@, cs@),
    decreases cs.len(),
{
    let n = cs.len();
    let mut result: Vec<Inline> = Vec::new();
    let mut i: usize = 0;
    let star = vec!['*'];
    let stars = vec!['*', '*'];
    let tildes = vec!['~', '~'];
    let tick = vec!['`'];
    let close_sq = vec![']'];
    let close_sq2 = vec![']', ']'];
    let close_paren = vec![')'];
    let dollar = vec!['$'];
    assert(star@ =~= seq!['*']);
    assert(stars@ =~= seq!['*', '*']);
    assert(tildes@ =~= seq!['~', '~']);
    assert(tick@ =~= seq!['`']);
    assert(close_sq@ =~= seq![']']);
    assert(close_sq2@ =~= seq![']', ']']);
    assert(close_paren@ =~= seq![')']);
    assert(dollar@ =~= seq!['$']);
    let ghost mut done: Seq<Tok> = Seq::empty();
    assert(toks(cs@, 0) =~= done + toks(cs@, 0));
    while i < n
        invariant
            n == cs.len(),
            i <= n,
            star@ == seq!['*'] && stars@ == seq!['*', '*'] && tildes@ == seq!['~', '~'] && tick@
                == seq!['`'] && close_sq@ == seq![']'] && close_sq2@ == seq![']', ']']
                && close_paren@ == seq![')'] && dollar@ == seq!['$'],
            toks(cs@, 0) == done + toks(cs@, i as int),
            result@.len() == done.len(),
            forall|k: int| 0 <= k < done.len() ==> tok_rel(cs@, done[k], #[trigger] result@[k]),
            i == 0 ==> result@.len() == 0,
            plain(cs@) ==> (i == 0 && result@.len() == 0) || (i == n && single_text(
                result@,
                cs@,
            )),
        decreases n - i,
    {
        let ghost s = cs@;
        let ghost i0 = i as int;
        let ghost mut tok: Tok = Tok::Lit(' ');
        let c = cs[i];
        let x: Inline = if c == '*' {
            if i + 1 < n && cs[i + 1] == '*' {
                let (content, j) = parse_until(cs, i + 2, &stars);
                i = consume_delimiter(cs, j, &stars);
                proof {
                    tok = Tok::Emph(0, i0 + 2, until(s, i0 + 2, seq!['*', '*']).0);
                }
                Inline::Bold { content: parse_inlines_chars(&content) }
            } else {
                let (content, j) = parse_until(cs, i + 1, &star);
                i = consume_delimiter(cs, j, &star);
                proof {
                    tok = Tok::Emph(1, i0 + 1, until(s, i0 + 1, seq!['*']).0);
                }
                Inline::Italic { content: parse_inlines_chars(&content) }
            }
        } else if c == '~' {
            if i + 1 < n && cs[i + 1] == '~' {
                let (content, j) = parse_until(cs, i + 2, &tildes);
                i = consume_delimiter(cs, j, &tildes);
                proof {
                    tok = Tok::Emph(2, i0 + 2, until(s, i0 + 2, seq!['~', '~']).0);
                }
                Inline::Strikethrough { content: parse_inlines_chars(&content) }
            } else {
                i = i + 1;
                proof {
                    tok = Tok::Lit('~');
                }
                let v = vec!['~'];
                assert(v@ =~= seq!['~']);
                text_of(&v)
            }
        } else if c == '`' {
            let (content, j) = parse_until(cs, i + 1, &tick);
            i = consume_delimiter(cs, j, &tick);
            proof {
                tok = Tok::Code(i0 + 1, until(s, i0 + 1, seq!['`']).0);
            }
            Inline::Code { code: string_of(&content) }
        } else if c == '!' {
            let mut image: Option<Inline> = None;
            if i + 1 < n && cs[i + 1] == '[' {
                let (alt, j) = parse_until(cs, i + 2, &close_sq);
                let j = consume_delimiter(cs, j, &close_sq);
                if j < n && cs[j] == '(' {
                    let (src, k) = parse_until(cs, j + 1, &close_paren);
                    let k = consume_delimiter(cs, k, &close_paren);
                    let alt_text = if alt.len() == 0 {
                        None
                    } else {
                        Some(string_of(&alt))
                    };
                    proof {
                        tok = Tok::Img(
                            i0 + 2,
                            until(s, i0 + 2, seq![']']).0,
                            j + 1,
                            until(s, j + 1, seq![')']).0,
                        );
                    }
                    image = Some(Inline::Image { alt_text, src: string_of(&src) });
                    i = k;
                }
            }
            match image {
                Some(img) => img,
                None => {
                    i = i + 1;
                    proof {
                        tok = Tok::Lit('!');
                    }
                    let v = vec!['!'];
                    assert(v@ =~= seq!['!']);
                    text_of(&v)
                },
            }
        } else if c == '$' {
            let (content, j) = parse_until(cs, i + 1, &dollar);
            i = consume_delimiter(cs, j, &dollar);
            proof {
                tok = Tok::Math(i0 + 1, until(s, i0 + 1, seq!['$']).0);
            }
            Inline::Math { content: string_of(&content) }
        } else if c == '[' {
            if i + 1 < n && cs[i + 1] == '[' {
                let (t, j) = parse_until(cs, i + 2, &close_sq2);
                i = consume_delimiter(cs, j, &close_sq2);
                proof {
                    tok = Tok::Wiki(i0 + 2, until(s, i0 + 2, seq![']', ']']).0);
                }
                let mut label: Vec<Inline> = Vec::new();
                label.push(text_of(&t));
                Inline::Link { text: label, target: string_of(&t) }
            } else {
                let (t, j) = parse_until(cs, i + 1, &close_sq);
                let j = consume_delimiter(cs, j, &close_sq);
                if j < n && cs[j] == '(' {
                    let (target, k) = parse_until(cs, j + 1, &close_paren);
                    i = consume_delimiter(cs, k, &close_paren);
                    proof {
                        tok = Tok::Link(
                            i0 + 1,
                            until(s, i0 + 1, seq![']']).0,
                            j + 1,
                            until(s, j + 1, seq![')']).0,
                        );
                    }
                    Inline::Link { text: parse_inlines_chars(&t), target: string_of(&target) }
                } else {
                    let mut v: Vec<char> = vec!['['];
                    push_all(&mut v, &t);
                    v.push(']');
                    i = j;
                    proof {
                        tok = Tok::Bracket(i0 + 1, until(s, i0 + 1, seq![']']).0);
                        assert(v@ =~= seq!['['] + t@ + seq![']']);
                    }
                    text_of(&v)
                }
            }
        } else {
            let start = i;
            let mut text: Vec<char> = Vec::new();
            while i < n && !is_special(cs[i])
                invariant
                    n == cs.len(),
                    start <= i <= n,
                    text@ == cs@.subrange(start as int, i as int),
                    plain_end(cs@, i as int) == plain_end(cs@, start as int),
                decreases n - i,
            {
                text.push(cs[i]);
                i = i + 1;
                assert(text@ =~= cs@.subrange(start as int, i as int));
            }
            proof {
                tok = Tok::Plain(i0, i as int);
                if plain(cs@) {
                    assert(start == 0);
                    assert(i == n);
                    assert(text@ =~= cs@);
                }
            }
            text_of(&text)
        };
        proof {
            assert(step(s, i0) == (tok, i as int));
            assert(i0 < i);
            assert(toks(s, i0) == seq![tok] + toks(s, i as int));
            assert(tok_rel(s, tok, x));
        }
        let ghost before = result@;
        result.push(x);
        proof {
            let d0 = done;
            done = done.push(tok);
            assert(toks(s, 0) =~= done + toks(s, i as int));
            assert forall|k: int| 0 <= k < done.len() implies tok_rel(s, done[k], #[trigger] result@[k]) by {
                if k < d0.len() {
                    assert(result@[k] == before[k]);
                }
            }
        }
    }
    proof {
        assert(toks(cs@, n as int) =~= Seq::<Tok>::empty());
        assert(done =~= toks(cs@, 0));
        lemma_rel_from(cs@, done, result@, 0);
    }
    result
}

/// Tokenizes span-level Markdown; see `parse_inlines_chars`.
pub fn parse_inlines(input: &str) -> (r: Vec<Inline>)
    ensures
        inl_rel(input@, r@),
        input@.len() == 0 ==> r@.len() == 0,
        input@.len() > 0 && plain(input@) ==> single_text(r@, input@),
{
    let cs = chars_of(input);
    parse_inlines_chars(&cs)
}

/// The text of an ATX heading line: what follows the `#` run and its space, trimmed.
pub open spec fn header_text(l: Seq<char>) -> Seq<char> {
    let t = trim_start(l);
    trim(t.subrange(run_end(t, '#', 0) + 1, t.len() as int))
}

/// An ATX heading: one to six `#`, a space, then the text.
pub fn parse_markdown_header(line: &str) -> (r: Option<Block>)
    ensures
        match md_heading_level(line@) {
            Some(n) => r matches Some(Block::Leaf { leaf: LeafBlock::Heading { level, content } })
                && level == n && single_text(content@, header_text(line@)),
            None => r is None,
        },
{
    let l = chars_of(line);
    header_of(&l)
}

fn header_of(l: &Vec<char>) -> (r: Option<Block>)
    ensures
        match md_heading_level(l@) {
            Some(n) => r matches Some(Block::Leaf { leaf: LeafBlock::Heading { level, content } })
                && level == n && single_text(content@, header_text(l@)),
            None => r is None,
        },
{
    let t = trim_start_chars(l);
    let n = run_len(&t, '#');
    if 0 < n && n < 7 && n < t.len() && t[n] == ' ' {
        let text = trim_chars(&subvec(&t, n + 1, t.len()));
        let mut content: Vec<Inline> = Vec::new();
        content.push(text_of(&text));
        Some(Block::Leaf { leaf: LeafBlock::Heading { level: n as u8, content } })
    } else {
        None
    }
}

pub open spec fn image_open() -> Seq<char> {
    seq!['!', '[']
}

/// Where the alt text and the source of the first `![alt](src)` lie.
pub open spec fn image_parts(l: Seq<char>) -> Option<(int, int, int, int)> {
    match find_spec(l, image_open(), 0) {
        None => None,
        Some(s) => match find_spec(l, seq![']'], s) {
            None => None,
            Some(e) => match find_spec(l, seq!['('], e) {
                None => None,
                Some(p) => match find_spec(l, seq![')'], p + 1) {
                    None => None,
                    Some(q) => Some((s + 2, e, p + 1, q)),
                },
            },
        },
    }
}

/// The alt text (none when empty) and source of the first image in a line.
#[verifier::rlimit(60)]
pub fn parse_image<'a>(line: &'a str) -> (r: Option<(Option<&'a str>, &'a str)>)
    ensures
        match image_parts(line@) {
            None => r is None,
            Some((a, b, c, d)) => r matches Some((alt, src)) && src@ == line@.subrange(c, d) && (
            if a == b {
                alt is None
            } else {
                alt matches Some(t) && t@ == line@.subrange(a, b)
            }),
        },
{
    let l = chars_of(line);
    let open = vec!['!', '['];
    assert(open@ =~= image_open());
    let close = vec![']'];
    let paren = vec!['('];
    let close_paren = vec![')'];
    assert(close@ =~= seq![']']);
    assert(paren@ =~= seq!['(']);
    assert(close_paren@ =~= seq![')']);
    let s = match find_first(&l, &open, 0) {
        Some(s) => s,
        None => return None,
    };
    proof {
        lemma_find_spec(l@, open@, 0);
        assert(l@.subrange(s as int, s + 2) == image_open());
        assert(l@.subrange(s as int, s + 2)[0] == '!');
        assert(l@.subrange(s as int, s + 2)[1] == '[');
        assert(l@[s as int] == '!');
        assert(l@[s + 1] == '[');
    }
    let e = match find_first(&l, &close, s) {
        Some(e) => e,
        None => return None,
    };
    proof {
        lemma_find_spec(l@, close@, s as int);
        assert(l@.subrange(e as int, e + 1) == seq![']']);
        assert(l@.subrange(e as int, e + 1)[0] == ']');
        assert(l@[e as int] == ']');
        assert(e >= s + 2);
    }
    let p = match find_first(&l, &paren, e) {
        Some(p) => p,
        None => return None,
    };
    let q = match find_first(&l, &close_paren, p + 1) {
        Some(q) => q,
        None => return None,
    };
    let src = line.substring_char(p + 1, q);
    let alt = if s + 2 == e {
        None
    } else {
        Some(line.substring_char(s + 2, e))
    };
    Some((alt, src))
}

pub open spec fn is_digit(c: char) -> bool {
    48 <= c as u32 && c as u32 <= 57
}

/// End of the run of ASCII digits that starts at `i`.
pub open spec fn digit_end(s: Seq<char>, i: int) -> int
    decreases s.len() - i,
{
    if 0 <= i < s.len() && is_digit(s[i]) {
        digit_end(s, i + 1)
    } else {
        i
    }
}

/// `<digits>. ` at the start of `t`.
pub open spec fn ordered_marker(t: Seq<char>) -> bool {
    let d = digit_end(t, 0);
    d >= 1 && d + 1 < t.len() && t[d] == '.' && t[d + 1] == ' '
}

/// A line that opens a list item: `- `, `* `, `+ ` or `<digits>. ` after its indentation.
pub open spec fn item_line(l: Seq<char>) -> bool {
    let t = trim_start(l);
    has_prefix(t, seq!['-', ' ']) || has_prefix(t, seq!['*', ' ']) || has_prefix(t, seq!['+', ' '])
        || ordered_marker(t)
}

fn digit_run(t: &Vec<char>) -> (r: usize)
    ensures
        r == digit_end(t@, 0),
        r <= t.len(),
{
    let mut i: usize = 0;
    while i < t.len() && 48 <= t[i] as u32 && t[i] as u32 <= 57
        invariant
            i <= t.len(),
            digit_end(t@, i as int) == digit_end(t@, 0),
        decreases t.len() - i,
    {
        i = i + 1;
    }
    i
}

/// Where the text of an item starts, after its marker and one space.
pub open spec fn marker_len(t: Seq<char>) -> int {
    if has_prefix(t, seq!['-', ' ']) || has_prefix(t, seq!['*', ' ']) || has_prefix(
        t,
        seq!['+', ' '],
    ) {
        2
    } else {
        digit_end(t, 0) + 2
    }
}

/// The style an item marker gives its list.
pub open spec fn marker_style(t: Seq<char>) -> ListStyle {
    if has_prefix(t, seq!['-', ' ']) || has_prefix(t, seq!['*', ' ']) || has_prefix(
        t,
        seq!['+', ' '],
    ) {
        ListStyle::Unordered { bullet: t[0] }
    } else {
        ListStyle::Ordered {
            numbering: Numbering { kind: NumberingType::Decimal, style: NumberingStyle::Dot },
        }
    }
}

/// The list marker of an item line: its style and where the item text starts.
fn item_marker(t: &Vec<char>) -> (r: Option<(ListStyle, usize)>)
    ensures
        r is Some == (has_prefix(t@, seq!['-', ' ']) || has_prefix(t@, seq!['*', ' ']) || has_prefix(
            t@,
            seq!['+', ' '],
        ) || ordered_marker(t@)),
        r matches Some((st, k)) ==> k <= t.len() && k == marker_len(t@) && st == marker_style(t@),
{
    let dash = vec!['-', ' '];
    let star = vec!['*', ' '];
    let plus = vec!['+', ' '];
    assert(dash@ =~= seq!['-', ' ']);
    assert(star@ =~= seq!['*', ' ']);
    assert(plus@ =~= seq!['+', ' ']);
    if starts_with(t, &dash) {
        assert(t@.subrange(0, 2)[0] == '-');
        return Some((ListStyle::Unordered { bullet: '-' }, 2));
    }
    if starts_with(t, &star) {
        assert(t@.subrange(0, 2)[0] == '*');
        return Some((ListStyle::Unordered { bullet: '*' }, 2));
    }
    if starts_with(t, &plus) {
        assert(t@.subrange(0, 2)[0] == '+');
        return Some((ListStyle::Unordered { bullet: '+' }, 2));
    }
    let d = digit_run(t);
    if d >= 1 && d < t.len() && t.len() - d > 1 && t[d] == '.' && t[d + 1] == ' ' {
        let numbering = Numbering { kind: NumberingType::Decimal, style: NumberingStyle::Dot };
        return Some((ListStyle::Ordered { numbering }, d + 2));
    }
    None
}

/// Width of a line's indentation.
pub open spec fn indent_of(l: Seq<char>) -> int {
    l.len() - trim_start(l).len()
}

/// The lines from `j` on that belong under an item indented by `ind`: those indented deeper,
/// with blank lines skipped, up to the first line that is not.
pub open spec fn nested_from(ls: Seq<Seq<char>>, j: int, ind: int) -> Seq<Seq<char>>
    decreases ls.len() - j,
{
    if j < 0 || j >= ls.len() {
        Seq::empty()
    } else if trim_start(ls[j]).len() == 0 {
        nested_from(ls, j + 1, ind)
    } else if indent_of(ls[j]) > ind {
        seq![ls[j]] + nested_from(ls, j + 1, ind)
    } else {
        Seq::empty()
    }
}

/// The blocks of the item at line `start`: the paragraph of its text after the marker, then
/// the blocks of its nested lines.
pub open spec fn item_blocks_ok(ls: Seq<Seq<char>>, start: int, bs: Seq<Block>, depth: int) -> bool
    decreases depth, 3int, 0int,
{
    let nl = nested_from(ls, start + 1, indent_of(ls[start]));
    let t = trim_start(ls[start]);
    &&& bs.len() >= 1
    &&& bs[0] matches Block::Leaf { leaf: LeafBlock::Paragraph { content } } && inl_rel(
        t.subrange(marker_len(t), t.len() as int),
        content@,
    )
    &&& if nl.len() > 0 && depth > 0 {
        blocks_rel(nl, bs.subrange(1, bs.len() as int), depth - 1)
    } else {
        bs.len() == 1
    }
}

/// The first line at or after `j` that is not blank and is indented no more than `ind` (or the
/// line count): where an item indented by `ind` ends.
pub open spec fn nested_end(ls: Seq<Seq<char>>, j: int, ind: int) -> int
    decreases ls.len() - j,
{
    if 0 <= j < ls.len() && (trim_start(ls[j]).len() == 0 || indent_of(ls[j]) > ind) {
        nested_end(ls, j + 1, ind)
    } else {
        j
    }
}

/// Where the item that starts at line `i` ends.
pub open spec fn item_next(ls: Seq<Seq<char>>, i: int) -> int {
    nested_end(ls, i + 1, indent_of(ls[i]))
}

/// The lines from `i` on where list items start: each item line, after skipping the lines
/// nested under the previous item and any line that opens no item.
pub open spec fn item_starts(ls: Seq<Seq<char>>, i: int) -> Seq<int>
    decreases ls.len() - i,
{
    if i < 0 || i >= ls.len() {
        Seq::empty()
    } else if item_line(ls[i]) {
        let n = item_next(ls, i);
        if n <= i || n > ls.len() {
            seq![i]
        } else {
            seq![i] + item_starts(ls, n)
        }
    } else {
        item_starts(ls, i + 1)
    }
}

/// One list item from line `start`: its paragraph, then the more-indented lines below it
/// parsed as nested blocks.
#[verifier::rlimit(60)]
fn item_of(lines: &Vec<Vec<char>>, start: usize, depth: usize) -> (r: Option<
    (Vec<Block>, usize, ListStyle),
>)
    requires
        start < lines.len(),
    ensures
        r is Some == item_line(lines.deep_view()[start as int]),
        r matches Some((bs, next, st)) ==> start < next <= lines.len() && item_blocks_ok(
            lines.deep_view(),
            start as int,
            bs@,
            depth as int,
        ) && st == marker_style(trim_start(lines.deep_view()[start as int])) && next == item_next(
            lines.deep_view(),
            start as int,
        ) && (forall|j: int|
            start < j < next ==> trim_start(#[trigger] lines.deep_view()[j]).len() == 0 || indent_of(
                lines.deep_view()[j],
            ) > indent_of(lines.deep_view()[start as int])) && (next < lines.len() ==> trim_start(
            lines.deep_view()[next as int],
        ).len() > 0 && indent_of(lines.deep_view()[next as int]) <= indent_of(
            lines.deep_view()[start as int],
        )),
    decreases depth, 0int,
{
    let ghost ls = lines.deep_view();
    assert(ls[start as int] == lines@[start as int]@);
    let line = &lines[start];
    let t = trim_start_chars(line);
    let (style, k) = match item_marker(&t) {
        Some(m) => m,
        None => return None,
    };
    let indent = line.len() - t.len();
    let ghost ind = indent as int;
    assert(ind == indent_of(ls[start as int]));
    let content = subvec(&t, k, t.len());
    let mut blocks: Vec<Block> = Vec::new();
    blocks.push(Block::Leaf { leaf: LeafBlock::Paragraph { content: parse_inlines_chars(&content) } });
    let mut nested: Vec<Vec<char>> = Vec::new();
    let mut i: usize = start + 1;
    let mut more = true;
    assert(nested.deep_view() + nested_from(ls, i as int, ind) =~= nested_from(ls, start + 1, ind));
    while i < lines.len() && more
        invariant
            ls == lines.deep_view(),
            start < i <= lines.len(),
            ind == indent as int,
            more ==> nested.deep_view() + nested_from(ls, i as int, ind) == nested_from(ls, start + 1, ind),
            !more ==> nested.deep_view() == nested_from(ls, start + 1, ind),
            forall|j: int|
                start < j < i ==> trim_start(#[trigger] ls[j]).len() == 0 || indent_of(ls[j]) > ind,
            !more ==> i < lines.len() && trim_start(ls[i as int]).len() > 0 && indent_of(ls[i as int])
                <= ind,
            nested_end(ls, i as int, ind) == nested_end(ls, start + 1, ind),
        decreases lines.len() - i + (if more {
            1int
        } else {
            0int
        }),
    {
        assert(ls[i as int] == lines@[i as int]@);
        let nt = trim_start_chars(&lines[i]);
        if nt.len() == 0 {
            i = i + 1;
        } else if lines[i].len() - nt.len() > indent {
            let piece = subvec(&lines[i], 0, lines[i].len());
            let ghost before = nested.deep_view();
            let ghost before_v = nested@;
            nested.push(piece);
            proof {
                assert(nested@ == before_v.push(piece));
                assert(piece.deep_view() =~= piece@);
                assert(lines@[i as int]@.subrange(0, lines@[i as int]@.len() as int) =~= lines@[i as int]@);
                assert(nested.deep_view() =~= before.push(ls[i as int]));
                assert(nested_from(ls, i as int, ind) == seq![ls[i as int]] + nested_from(ls, i + 1, ind));
                assert(nested.deep_view() + nested_from(ls, i + 1, ind) =~= before + nested_from(ls, i as int, ind));
            }
            i = i + 1;
        } else {
            proof {
                assert(nested_from(ls, i as int, ind) =~= Seq::<Seq<char>>::empty());
                assert(nested.deep_view() + nested_from(ls, i as int, ind) =~= nested.deep_view());
            }
            more = false;
        }
    }
    proof {
        if more {
            assert(nested_from(ls, i as int, ind) =~= Seq::<Seq<char>>::empty());
            assert(nested.deep_view() + nested_from(ls, i as int, ind) =~= nested.deep_view());
        }
    }
    let ghost para = blocks@;
    if nested.len() > 0 && depth > 0 {
        let inner = blocks_of(&nested, depth - 1);
        let ghost orig = inner@;
        let mut inner = inner;
        let count = inner.len();
        let mut moved: usize = 0;
        while inner.len() > 0
            invariant
                orig.len() == count,
                inner@ == orig.subrange(moved as int, orig.len() as int),
                moved <= orig.len(),
                blocks@ == para + orig.subrange(0, moved as int),
            decreases inner.len(),
        {
            assert(inner@.len() == orig.len() - moved);
            let b = inner.remove(0);
            blocks.push(b);
            moved = moved + 1;
            assert(blocks@ =~= para + orig.subrange(0, moved as int));
        }
        proof {
            assert(orig.subrange(0, moved as int) =~= orig);
            assert(blocks@.subrange(1, blocks@.len() as int) =~= orig);
        }
    }
    Some((blocks, i, style))
}

/// A list from consecutive item lines; none when no line opens an item. When the first line
/// opens an item, that item comes first.
#[verifier::rlimit(60)]
fn list_of(lines: &Vec<Vec<char>>, depth: usize) -> (r: Option<Block>)
    ensures
        r is Some <==> exists|j: int| 0 <= j < lines@.len() && item_line(#[trigger] lines.deep_view()[j]),
        r matches Some(b) ==> b matches Block::Container { container: ContainerBlock::List { .. } },
        lines@.len() > 0 && item_line(lines.deep_view()[0]) ==> (r matches Some(
            Block::Container { container: ContainerBlock::List { items, style } },
        ) && items@.len() > 0 && item_blocks_ok(lines.deep_view(), 0, items@[0]@, depth as int)
            && style == marker_style(trim_start(lines.deep_view()[0]))),
        r matches Some(Block::Container { container: ContainerBlock::List { items, .. } }) ==> (
        items@.len() == item_starts(lines.deep_view(), 0).len() && forall|k: int|
            0 <= k < items@.len() ==> item_blocks_ok(
                lines.deep_view(),
                item_starts(lines.deep_view(), 0)[k],
                (#[trigger] items@[k])@,
                depth as int,
            )),
    decreases depth, 1int,
{
    let ghost ls = lines.deep_view();
    let ghost mut done: Seq<int> = Seq::empty();
    assert(item_starts(ls, 0) =~= done + item_starts(ls, 0));
    let mut items: Vec<Vec<Block>> = Vec::new();
    let mut style: Option<ListStyle> = None;
    let mut i: usize = 0;
    while i < lines.len()
        invariant
            ls == lines.deep_view(),
            i <= lines.len(),
            items@.len() == 0 ==> forall|j: int| 0 <= j < i ==> !item_line(#[trigger] ls[j]),
            items@.len() > 0 ==> exists|j: int| 0 <= j < lines@.len() && item_line(#[trigger] ls[j]),
            items@.len() > 0 ==> style is Some,
            items@.len() == 0 ==> style is None,
            items@.len() > 0 ==> i > 0,
            i > 0 && ls.len() > 0 && item_line(ls[0]) ==> items@.len() > 0 && item_blocks_ok(ls, 0, items@[0]@, depth as int)
                && style == Some(marker_style(trim_start(ls[0]))),
            item_starts(ls, 0) == done + item_starts(ls, i as int),
            items@.len() == done.len(),
            forall|k: int| 0 <= k < done.len() ==> item_blocks_ok(ls, done[k], (#[trigger] items@[k])@, depth as int),
        decreases lines.len() - i,
    {
        let ghost before = items@;
        let ghost i0 = i as int;
        match item_of(lines, i, depth) {
            Some((blocks, next, st)) => {
                if style.is_none() {
                    style = Some(st);
                }
                let ghost bv = blocks@;
                let ghost at = i as int;
                items.push(blocks);
                assert(item_line(ls[i as int]));
                proof {
                    if before.len() > 0 {
                        assert(items@[0] == before[0]);
                    } else {
                        assert(items@[0]@ == bv);
                        if ls.len() > 0 && item_line(ls[0]) {
                            assert(at == 0);
                        }
                    }
                    assert(item_starts(ls, i0) == seq![i0] + item_starts(ls, next as int));
                    let d0 = done;
                    done = done.push(i0);
                    assert(item_starts(ls, 0) =~= done + item_starts(ls, next as int));
                    assert forall|k: int| 0 <= k < done.len() implies item_blocks_ok(ls, done[k], (#[trigger] items@[k])@, depth as int) by {
                        if k < d0.len() {
                            assert(items@[k] == before[k]);
                        }
                    }
                }
                i = next;
            },
            None => {
                proof {
                    assert(item_starts(ls, i0) == item_starts(ls, i0 + 1));
                }
                i = i + 1;
            },
        }
    }
    proof {
        assert(item_starts(ls, i as int) =~= Seq::<int>::empty());
        assert(done =~= item_starts(ls, 0));
    }
    if items.len() == 0 {
        None
    } else {
        match style {
            Some(st) => Some(Block::Container { container: ContainerBlock::List { style: st, items } }),
            None => None,
        }
    }
}

/// A list from the lines of `input`; none when no line opens an item.
pub fn parse_list(input: &str) -> (r: Option<Block>)
    ensures
        r is Some <==> exists|j: int|
            0 <= j < lines_of(input@).len() && item_line(#[trigger] lines_of(input@)[j]),
        r matches Some(b) ==> b matches Block::Container { container: ContainerBlock::List { .. } },
        lines_of(input@).len() > 0 && item_line(lines_of(input@)[0]) ==> (r matches Some(
            Block::Container { container: ContainerBlock::List { items, style } },
        ) && items@.len() > 0 && item_blocks_ok(lines_of(input@), 0, items@[0]@, input@.len() as int)
            && style == marker_style(trim_start(lines_of(input@)[0]))),
        r matches Some(Block::Container { container: ContainerBlock::List { items, .. } }) ==> (
        items@.len() == item_starts(lines_of(input@), 0).len() && forall|k: int|
            0 <= k < items@.len() ==> item_blocks_ok(
                lines_of(input@),
                item_starts(lines_of(input@), 0)[k],
                (#[trigger] items@[k])@,
                input@.len() as int,
            )),
{
    let lines = lines_of_str(input);
    let depth = input.unicode_len();
    list_of(&lines, depth)
}

pub open spec fn has_pipe(l: Seq<char>) -> bool {
    exists|i: int| 0 <= i < l.len() && l[i] == '|'
}

fn has_pipe_chars(l: &Vec<char>) -> (r: bool)
    ensures
        r == has_pipe(l@),
{
    let mut i: usize = 0;
    while i < l.len()
        invariant
            i <= l.len(),
            forall|k: int| 0 <= k < i ==> l@[k] != '|',
        decreases l.len() - i,
    {
        if l[i] == '|' {
            return true;
        }
        i = i + 1;
    }
    false
}

/// How many of the lines hold a `|`.
pub open spec fn pipe_count(ls: Seq<Seq<char>>) -> int
    decreases ls.len(),
{
    if ls.len() == 0 {
        0
    } else {
        pipe_count(ls.drop_last()) + if has_pipe(ls.last()) {
            1int
        } else {
            0
        }
    }
}

/// The lines that hold a `|`, in order.
pub open spec fn pipe_rows(ls: Seq<Seq<char>>) -> Seq<Seq<char>>
    decreases ls.len(),
{
    if ls.len() == 0 {
        Seq::empty()
    } else {
        pipe_rows(ls.drop_last()) + if has_pipe(ls.last()) {
            seq![ls.last()]
        } else {
            Seq::empty()
        }
    }
}

proof fn lemma_pipe_rows_all(ls: Seq<Seq<char>>)
    requires
        forall|k: int| 0 <= k < ls.len() ==> has_pipe(#[trigger] ls[k]),
    ensures
        pipe_rows(ls) == ls,
    decreases ls.len(),
{
    if ls.len() > 0 {
        assert forall|k: int| 0 <= k < ls.drop_last().len() implies has_pipe(#[trigger] ls.drop_last()[k]) by {
            assert(ls.drop_last()[k] == ls[k]);
        }
        lemma_pipe_rows_all(ls.drop_last());
        assert(has_pipe(ls.last()));
        assert(ls.drop_last() + seq![ls.last()] =~= ls);
    }
}

proof fn lemma_pipe_rows_len(ls: Seq<Seq<char>>)
    ensures
        pipe_rows(ls).len() == pipe_count(ls),
    decreases ls.len(),
{
    if ls.len() > 0 {
        lemma_pipe_rows_len(ls.drop_last());
    }
}

/// The cells of a row: its `|`-separated pieces, each trimmed and parsed as inlines.
pub open spec fn cells_ok(row: Seq<char>, cells: Seq<Vec<Inline>>) -> bool {
    let ps = split_on(row, '|');
    cells.len() == ps.len() && forall|k: int| 0 <= k < ps.len() ==> inl_rel(trim(ps[k]), (#[trigger] cells[k])@)
}

pub open spec fn align_char(c: char) -> bool {
    c == '-' || c == ':' || c == '|' || crate::text::is_space(c)
}

/// A row of only `-`, `:`, `|` and whitespace.
pub open spec fn align_row(l: Seq<char>) -> bool {
    forall|i: int| 0 <= i < l.len() ==> align_char(#[trigger] l[i])
}

/// `:left`, `right:` and `:center:` cells; anything else is left-aligned.
pub open spec fn align_spec(cell: Seq<char>) -> Alignment {
    let t = trim(cell);
    if t.len() > 0 && t[0] == ':' && t.last() == ':' {
        Alignment::Center
    } else if t.len() > 0 && t.last() == ':' {
        Alignment::Right
    } else {
        Alignment::Left
    }
}

fn alignment_char(c: char) -> (r: bool)
    ensures
        r == align_char(c),
{
    c == '-' || c == ':' || c == '|' || is_space_char(c)
}

fn is_alignment_row(l: &Vec<char>) -> (r: bool)
    ensures
        r == align_row(l@),
{
    let mut i: usize = 0;
    while i < l.len()
        invariant
            i <= l.len(),
            forall|k: int| 0 <= k < i ==> align_char(#[trigger] l@[k]),
        decreases l.len() - i,
    {
        if !alignment_char(l[i]) {
            return false;
        }
        i = i + 1;
    }
    true
}

fn alignment_of(cell: &Vec<char>) -> (r: Alignment)
    ensures
        r == align_spec(cell@),
{
    let t = trim_chars(cell);
    let left = t.len() > 0 && t[0] == ':';
    let right = t.len() > 0 && t[t.len() - 1] == ':';
    if left && right {
        Alignment::Center
    } else if right {
        Alignment::Right
    } else {
        Alignment::Left
    }
}

/// The cells of a row, each trimmed and parsed as inlines.
fn row_cells(l: &Vec<char>) -> (r: Vec<Vec<Inline>>)
    ensures
        cells_ok(l@, r@),
{
    let pieces = split_chars(l, '|');
    let ghost ps = pieces.deep_view();
    let mut cells: Vec<Vec<Inline>> = Vec::new();
    let mut i: usize = 0;
    while i < pieces.len()
        invariant
            i <= pieces.len(),
            ps == pieces.deep_view(),
            ps == split_on(l@, '|'),
            cells@.len() == i,
            forall|k: int| 0 <= k < i ==> inl_rel(trim(ps[k]), (#[trigger] cells@[k])@),
        decreases pieces.len() - i,
    {
        assert(ps[i as int] == pieces@[i as int]@);
        let c = parse_inlines_chars(&trim_chars(&pieces[i]));
        let ghost before = cells@;
        cells.push(c);
        proof {
            assert forall|k: int| 0 <= k < i + 1 implies inl_rel(trim(ps[k]), (#[trigger] cells@[k])@) by {
                if k < i {
                    assert(cells@[k] == before[k]);
                }
            }
        }
        i = i + 1;
    }
    cells
}

/// What a table made of the `|` rows `pr` holds: the header cells, then either an alignment
/// row and the data rows after it, or the data rows right after the header.
pub open spec fn table_ok(
    pr: Seq<Seq<char>>,
    headers: Seq<Vec<Inline>>,
    body: Seq<Vec<Vec<Inline>>>,
    alignments: Option<Vec<Alignment>>,
) -> bool {
    let first = if align_row(pr[1]) {
        2int
    } else {
        1int
    };
    &&& cells_ok(pr[0], headers)
    &&& (align_row(pr[1]) ==> (alignments matches Some(al) && al@.len() == split_on(pr[1], '|').len()
        && forall|k: int| 0 <= k < al@.len() ==> #[trigger] al@[k] == align_spec(split_on(pr[1], '|')[k])))
    &&& (!align_row(pr[1]) ==> alignments is None)
    &&& body.len() == pr.len() - first
    &&& forall|k: int| 0 <= k < body.len() ==> cells_ok(pr[k + first], (#[trigger] body[k])@)
}

#[verifier::rlimit(60)]
fn table_of(lines: &Vec<Vec<char>>) -> (r: Option<Block>)
    ensures
        r is Some <==> pipe_count(lines.deep_view()) >= 2,
        r matches Some(b) ==> (b matches Block::Container {
            container: ContainerBlock::Table { headers, rows, alignments, caption },
        } && caption is None && table_ok(pipe_rows(lines.deep_view()), headers@, rows@, alignments)),
{
    let ghost ls = lines.deep_view();
    let mut rows: Vec<Vec<char>> = Vec::new();
    let mut i: usize = 0;
    while i < lines.len()
        invariant
            ls == lines.deep_view(),
            i <= lines.len(),
            rows.deep_view() == pipe_rows(ls.subrange(0, i as int)),
        decreases lines.len() - i,
    {
        let ghost prev = ls.subrange(0, i as int);
        assert(ls.subrange(0, i + 1).drop_last() =~= prev);
        assert(ls.subrange(0, i + 1).last() == ls[i as int]);
        assert(ls[i as int] == lines@[i as int]@);
        if has_pipe_chars(&lines[i]) {
            let piece = subvec(&lines[i], 0, lines[i].len());
            let ghost before = rows.deep_view();
            let ghost before_v = rows@;
            rows.push(piece);
            proof {
                assert(rows@ == before_v.push(piece));
                assert(piece.deep_view() =~= piece@);
                assert(lines@[i as int]@.subrange(0, lines@[i as int]@.len() as int) =~= lines@[i as int]@);
                assert(rows.deep_view() =~= pipe_rows(ls.subrange(0, i + 1)));
            }
        } else {
            assert(rows.deep_view() =~= pipe_rows(ls.subrange(0, i + 1)));
        }
        i = i + 1;
    }
    assert(ls.subrange(0, lines.len() as int) =~= ls);
    let ghost pr = rows.deep_view();
    proof {
        lemma_pipe_rows_len(ls);
    }
    if rows.len() < 2 {
        return None;
    }
    assert(pr[0] == rows@[0]@);
    assert(pr[1] == rows@[1]@);
    let headers = row_cells(&rows[0]);
    let mut start: usize = 1;
    let mut alignments: Option<Vec<Alignment>> = None;
    if is_alignment_row(&rows[1]) {
        let pieces = split_chars(&rows[1], '|');
        let ghost ps = pieces.deep_view();
        let mut al: Vec<Alignment> = Vec::new();
        let mut k: usize = 0;
        while k < pieces.len()
            invariant
                k <= pieces.len(),
                ps == pieces.deep_view(),
                al@.len() == k,
                forall|m: int| 0 <= m < k ==> #[trigger] al@[m] == align_spec(ps[m]),
            decreases pieces.len() - k,
        {
            assert(ps[k as int] == pieces@[k as int]@);
            al.push(alignment_of(&pieces[k]));
            k = k + 1;
        }
        alignments = Some(al);
        start = 2;
    }
    let mut body: Vec<Vec<Vec<Inline>>> = Vec::new();
    let mut k: usize = start;
    while k < rows.len()
        invariant
            pr == rows.deep_view(),
            1 <= start <= 2,
            start <= k <= rows.len(),
            body@.len() == k - start,
            forall|m: int| 0 <= m < body@.len() ==> cells_ok(pr[m + start], (#[trigger] body@[m])@),
        decreases rows.len() - k,
    {
        assert(pr[k as int] == rows@[k as int]@);
        let cells = row_cells(&rows[k]);
        let ghost before = body@;
        body.push(cells);
        proof {
            assert forall|m: int| 0 <= m < body@.len() implies cells_ok(pr[m + start], (#[trigger] body@[m])@) by {
                if m < before.len() {
                    assert(body@[m] == before[m]);
                }
            }
        }
        k = k + 1;
    }
    Some(
        Block::Container {
            container: ContainerBlock::Table { headers, rows: body, alignments, caption: None },
        },
    )
}

/// A table from the lines of `input` that hold a `|`: the first is the header row, an
/// alignment row may follow, the rest are data; none with fewer than two such lines.
pub fn parse_table(input: &str) -> (r: Option<Block>)
    ensures
        r is Some <==> pipe_count(lines_of(input@)) >= 2,
        r matches Some(b) ==> (b matches Block::Container {
            container: ContainerBlock::Table { headers, rows, alignments, caption },
        } && caption is None && table_ok(pipe_rows(lines_of(input@)), headers@, rows@, alignments)),
{
    let lines = lines_of_str(input);
    table_of(&lines)
}

pub open spec fn fence3() -> Seq<char> {
    seq!['`', '`', '`']
}

pub open spec fn dd() -> Seq<char> {
    seq!['$', '$']
}

/// A trimmed line that opens a list run: a bullet and a space, or a leading digit.
pub open spec fn list_start_spec(t: Seq<char>) -> bool {
    has_prefix(t, seq!['-', ' ']) || has_prefix(t, seq!['*', ' ']) || has_prefix(t, seq!['+', ' '])
        || (t.len() > 0 && is_digit(t[0]))
}

fn list_start(t: &Vec<char>) -> (r: bool)
    ensures
        r == list_start_spec(t@),
{
    let dash = vec!['-', ' '];
    let star = vec!['*', ' '];
    let plus = vec!['+', ' '];
    assert(dash@ =~= seq!['-', ' ']);
    assert(star@ =~= seq!['*', ' ']);
    assert(plus@ =~= seq!['+', ' ']);
    starts_with(t, &dash) || starts_with(t, &star) || starts_with(t, &plus) || (t.len() > 0 && 48
        <= t[0] as u32 && t[0] as u32 <= 57)
}

/// The first line at or after `j` that trims to exactly a fence (or the line count).
pub open spec fn fence_close(ls: Seq<Seq<char>>, j: int) -> int
    decreases ls.len() - j,
{
    if 0 <= j < ls.len() && trim(ls[j]) != fence3() {
        fence_close(ls, j + 1)
    } else {
        j
    }
}

/// Lines `a..b`, each followed by a newline.
pub open spec fn lines_nl(ls: Seq<Seq<char>>, a: int, b: int) -> Seq<char>
    decreases b - a,
{
    if b <= a {
        Seq::empty()
    } else {
        lines_nl(ls, a, b - 1) + ls[b - 1] + seq!['\n']
    }
}

/// Multi-line math from line `j`: lines (trimmed at the end) joined by newlines up to one that
/// ends with `$$`, which closes it.
pub open spec fn math_acc(ls: Seq<Seq<char>>, j: int, full: Seq<char>) -> (Seq<char>, int)
    decreases ls.len() - j,
{
    if j < 0 || j >= ls.len() {
        (full, j)
    } else {
        let nt = crate::text::trim_end(ls[j]);
        let f1 = if full.len() > 0 {
            full.push('\n')
        } else {
            full
        };
        if crate::text::has_suffix(nt, dd()) {
            (f1 + nt.subrange(0, nt.len() - 2), j + 1)
        } else {
            math_acc(ls, j + 1, f1 + nt)
        }
    }
}

pub open spec fn strip_nl(s: Seq<char>) -> Seq<char> {
    if s.len() > 0 && s.last() == '\n' {
        s.drop_last()
    } else {
        s
    }
}

/// A line that continues a quote: `>` after its indentation.
pub open spec fn quote_line(l: Seq<char>) -> bool {
    trim_start(l).len() > 0 && trim_start(l)[0] == '>'
}

pub open spec fn quote_end(ls: Seq<Seq<char>>, j: int) -> int
    decreases ls.len() - j,
{
    if 0 <= j < ls.len() && quote_line(ls[j]) {
        quote_end(ls, j + 1)
    } else {
        j
    }
}

/// The text of a quote line after its `>`.
pub open spec fn unquote(l: Seq<char>) -> Seq<char> {
    trim_start(trim_start(l).subrange(1, trim_start(l).len() as int))
}

pub open spec fn quoted(ls: Seq<Seq<char>>, a: int, b: int) -> Seq<Seq<char>>
    decreases b - a,
{
    if b <= a {
        Seq::empty()
    } else {
        quoted(ls, a, b - 1).push(unquote(ls[b - 1]))
    }
}

/// A line that continues a list run: blank, or a list opener.
pub open spec fn list_line(l: Seq<char>) -> bool {
    trim_start(l).len() == 0 || list_start_spec(trim_start(l))
}

pub open spec fn list_end(ls: Seq<Seq<char>>, j: int) -> int
    decreases ls.len() - j,
{
    if 0 <= j < ls.len() && list_line(ls[j]) {
        list_end(ls, j + 1)
    } else {
        j
    }
}

pub open spec fn pipe_end(ls: Seq<Seq<char>>, j: int) -> int
    decreases ls.len() - j,
{
    if 0 <= j < ls.len() && has_pipe(ls[j]) {
        pipe_end(ls, j + 1)
    } else {
        j
    }
}

/// A line that is exactly `![alt](src)`: its alt text (none when empty) and source.
pub open spec fn image_line(t: Seq<char>) -> Option<(Option<Seq<char>>, Seq<char>)> {
    match image_parts(t) {
        Some((a, b, c, d)) => if t == seq!['!', '['] + t.subrange(a, b) + seq![']', '(']
            + t.subrange(c, d) + seq![')'] {
            Some(
                (
                    if a == b {
                        None
                    } else {
                        Some(t.subrange(a, b))
                    },
                    t.subrange(c, d),
                ),
            )
        } else {
            None
        },
        None => None,
    }
}

/// What one step of the block grammar finds at a line.
pub enum BTok {
    Skip,
    Code(Option<Seq<char>>, Seq<char>),
    Math(Seq<char>),
    Heading(Seq<char>),
    Quote(Seq<char>),
    List(Seq<Seq<char>>),
    Table(Seq<Seq<char>>),
    Image(Seq<char>),
    Para(Seq<char>),
}

pub open spec fn fence_lang(t: Seq<char>) -> Option<Seq<char>> {
    let lg = trim(t.subrange(3, t.len() as int));
    if lg.len() == 0 {
        None
    } else {
        Some(lg)
    }
}

/// The text of a quote that starts at line `i` and runs to `e`.
pub open spec fn quote_text(ls: Seq<Seq<char>>, i: int, e: int) -> Seq<char> {
    let t = trim(ls[i]);
    trim(join_lines(seq![trim_start(t.subrange(1, t.len() as int))] + quoted(ls, i + 1, e)))
}

/// The token at line `i`, and the line after it.
pub open spec fn bstep(ls: Seq<Seq<char>>, i: int) -> (BTok, int) {
    let n = ls.len() as int;
    let l = ls[i];
    let t = trim(l);
    if is_blank(l) {
        (BTok::Skip, i + 1)
    } else if has_prefix(t, fence3()) {
        let c = fence_close(ls, i + 1);
        (BTok::Code(fence_lang(t), lines_nl(ls, i + 1, c)), if c < n {
            c + 1
        } else {
            n
        })
    } else if has_prefix(t, dd()) {
        let rest = t.subrange(2, t.len() as int);
        if crate::text::has_suffix(rest, dd()) {
            (BTok::Math(rest.subrange(0, rest.len() - 2)), i + 1)
        } else {
            let (f, j) = math_acc(ls, i + 1, rest);
            (BTok::Math(strip_nl(f)), j)
        }
    } else if md_heading_level(t) is Some {
        (BTok::Heading(t), i + 1)
    } else if t.len() > 0 && t[0] == '>' {
        let e = quote_end(ls, i + 1);
        (BTok::Quote(quote_text(ls, i, e)), e)
    } else if list_start_spec(t) {
        let e = list_end(ls, i + 1);
        (BTok::List(ls.subrange(i, e)), e)
    } else if has_pipe(l) && pipe_end(ls, i + 1) - i >= 2 {
        (BTok::Table(ls.subrange(i, pipe_end(ls, i + 1))), pipe_end(ls, i + 1))
    } else if image_line(t) is Some {
        (BTok::Image(t), i + 1)
    } else {
        (BTok::Para(t), i + 1)
    }
}

/// Whether a token yields a block.
pub open spec fn produces(ls: Seq<Seq<char>>, t: BTok, depth: int) -> bool {
    match t {
        BTok::Skip => false,
        BTok::Quote(q) => q.len() > 0,
        BTok::List(run) => depth > 0 && exists|j: int| 0 <= j < run.len() && item_line(#[trigger] run[j]),
        _ => true,
    }
}

/// The tokens from line `i` on that yield a block.
pub open spec fn btoks(ls: Seq<Seq<char>>, i: int, depth: int) -> Seq<BTok>
    decreases ls.len() - i,
{
    if i < 0 || i >= ls.len() {
        Seq::empty()
    } else {
        let (t, next) = bstep(ls, i);
        let here = if produces(ls, t, depth) {
            seq![t]
        } else {
            Seq::empty()
        };
        if next <= i || next > ls.len() {
            here
        } else {
            here + btoks(ls, next, depth)
        }
    }
}

/// `bs` is what the block grammar yields for the lines `ls`, nesting at most `depth` deep.
pub open spec fn blocks_rel(ls: Seq<Seq<char>>, bs: Seq<Block>, depth: int) -> bool
    decreases depth, 2int, 0int,
{
    bs.len() == btoks(ls, 0, depth).len() && brel_from(ls, btoks(ls, 0, depth), bs, depth, 0)
}

pub open spec fn brel_from(ls: Seq<Seq<char>>, ts: Seq<BTok>, bs: Seq<Block>, depth: int, k: int) -> bool
    decreases depth, 1int, bs.len() - k,
{
    if k < 0 || k >= bs.len() {
        true
    } else if k >= ts.len() {
        false
    } else {
        btok_rel(ts[k], bs[k], depth) && brel_from(ls, ts, bs, depth, k + 1)
    }
}

/// The block `b` is what token `t` stands for.
pub open spec fn btok_rel(t: BTok, b: Block, depth: int) -> bool
    decreases depth, 0int, 0int,
{
    match t {
        BTok::Skip => false,
        BTok::Code(lang, body) => b matches Block::Leaf {
            leaf: LeafBlock::CodeBlock { language, content },
        } && opt_view(language) == lang && content@ == body,
        BTok::Math(m) => b matches Block::Leaf { leaf: LeafBlock::MathBlock { content } }
            && content@ == m,
        BTok::Heading(h) => b matches Block::Leaf { leaf: LeafBlock::Heading { level, content } }
            && Some(level) == md_heading_level(h) && single_text(content@, header_text(h)),
        BTok::Quote(q) => if depth > 0 {
            match b {
                Block::Container { container: ContainerBlock::Quote { blocks } } => blocks_rel(
                    lines_of(q),
                    blocks@,
                    depth - 1,
                ),
                _ => false,
            }
        } else {
            b matches Block::Leaf { leaf: LeafBlock::Paragraph { content } } && inl_rel(
                q,
                content@,
            )
        },
        BTok::List(run) => b matches Block::Container { container: ContainerBlock::List { items, style } }
            && (run.len() > 0 && item_line(run[0]) && depth > 0 ==> items@.len() > 0 && item_blocks_ok(
            run,
            0,
            items@[0]@,
            depth - 1,
        ) && style == marker_style(trim_start(run[0]))) && (depth > 0 ==> items@.len() == item_starts(
            run,
            0,
        ).len() && forall|k: int|
            0 <= k < items@.len() ==> item_blocks_ok(
                run,
                item_starts(run, 0)[k],
                (#[trigger] items@[k])@,
                depth - 1,
            )),
        BTok::Table(run) => b matches Block::Container {
            container: ContainerBlock::Table { headers, rows, alignments, caption },
        } && caption is None && table_ok(run, headers@, rows@, alignments),
        BTok::Image(line) => match image_line(line) {
            Some((alt, src)) => b matches Block::Leaf { leaf: LeafBlock::Image { alt_text, src: s } }
                && opt_view(alt_text) == alt && s@ == src,
            None => false,
        },
        BTok::Para(p) => b matches Block::Leaf { leaf: LeafBlock::Paragraph { content } } && inl_rel(
            p,
            content@,
        ),
    }
}

proof fn lemma_brel_from(ls: Seq<Seq<char>>, ts: Seq<BTok>, bs: Seq<Block>, depth: int, k: int)
    requires
        0 <= k <= bs.len(),
        bs.len() == ts.len(),
        forall|m: int| 0 <= m < bs.len() ==> btok_rel(ts[m], #[trigger] bs[m], depth),
    ensures
        brel_from(ls, ts, bs, depth, k),
    decreases bs.len() - k,
{
    if k < bs.len() {
        lemma_brel_from(ls, ts, bs, depth, k + 1);
    }
}

/// Copies lines `a..b`.
fn line_range(lines: &Vec<Vec<char>>, a: usize, b: usize) -> (r: Vec<Vec<char>>)
    requires
        a <= b <= lines.len(),
    ensures
        r.deep_view() == lines.deep_view().subrange(a as int, b as int),
{
    let mut r: Vec<Vec<char>> = Vec::new();
    let mut i: usize = a;
    while i < b
        invariant
            a <= i <= b <= lines.len(),
            r.deep_view() == lines.deep_view().subrange(a as int, i as int),
        decreases b - i,
    {
        let piece = subvec(&lines[i], 0, lines[i].len());
        let ghost before = r.deep_view();
        let ghost before_v = r@;
        r.push(piece);
        proof {
            assert(r@ == before_v.push(piece));
            assert(piece.deep_view() =~= piece@);
            assert(lines@[i as int]@.subrange(0, lines@[i as int]@.len() as int) =~= lines@[i as int]@);
            assert(lines.deep_view()[i as int] == lines@[i as int]@);
            assert(r.deep_view() =~= before.push(piece@));
            assert(r.deep_view() =~= lines.deep_view().subrange(a as int, i + 1));
        }
        i = i + 1;
    }
    r
}

/// Exactly `![alt](src)` and nothing else.
#[verifier::rlimit(60)]
fn image_only(t: &Vec<char>) -> (r: Option<Block>)
    ensures
        match image_line(t@) {
            Some((alt, src)) => r matches Some(Block::Leaf { leaf: LeafBlock::Image { alt_text, src: s } })
                && opt_view(alt_text) == alt && s@ == src,
            None => r is None,
        },
{
    let s = string_of(t);
    match parse_image(s.as_str()) {
        Some((alt, src)) => {
            let mut v: Vec<char> = vec!['!', '['];
            match alt {
                Some(a) => push_all(&mut v, &chars_of(a)),
                None => {},
            }
            v.push(']');
            v.push('(');
            push_all(&mut v, &chars_of(src));
            v.push(')');
            proof {
                let (a0, b0, c0, d0) = image_parts(t@)->0;
                if a0 == b0 {
                    assert(t@.subrange(a0, b0) =~= Seq::<char>::empty());
                }
                assert(v@ =~= seq!['!', '['] + t@.subrange(a0, b0) + seq![']', '('] + t@.subrange(c0, d0) + seq![')']);
            }
            if crate::text::same_chars(&v, t) {
                let alt_text = match alt {
                    Some(a) => Some(a.to_owned()),
                    None => None,
                };
                Some(Block::Leaf { leaf: LeafBlock::Image { alt_text, src: src.to_owned() } })
            } else {
                None
            }
        },
        None => None,
    }
}

proof fn lemma_all_pipes(run: Seq<Seq<char>>)
    requires
        forall|k: int| 0 <= k < run.len() ==> has_pipe(#[trigger] run[k]),
    ensures
        pipe_count(run) == run.len(),
    decreases run.len(),
{
    if run.len() > 0 {
        assert(has_pipe(run[run.len() - 1]));
        assert forall|k: int| 0 <= k < run.drop_last().len() implies has_pipe(#[trigger] run.drop_last()[k]) by {
            assert(run.drop_last()[k] == run[k]);
        }
        lemma_all_pipes(run.drop_last());
    }
}

/// The blocks of a run of lines. Nesting (quotes, list items) spends one unit of `depth`;
/// past it, a quote's text is kept as a paragraph and a list is left out.
#[verifier::rlimit(50)]
fn blocks_of(lines: &Vec<Vec<char>>, depth: usize) -> (r: Vec<Block>)
    ensures
        blocks_rel(lines.deep_view(), r@, depth as int),
    decreases depth, 2int,
{
    let ghost ls = lines.deep_view();
    let ghost dp = depth as int;
    let n = lines.len();
    let mut blocks: Vec<Block> = Vec::new();
    let mut i: usize = 0;
    let fence = vec!['`', '`', '`'];
    let dollars = vec!['$', '$'];
    assert(fence@ =~= seq!['`', '`', '`']);
    assert(dollars@ =~= seq!['$', '$']);
    let ghost mut done: Seq<BTok> = Seq::empty();
    assert(btoks(ls, 0, dp) =~= done + btoks(ls, 0, dp));
    while i < n
        invariant
            n == lines.len(),
            ls == lines.deep_view(),
            dp == depth as int,
            i <= n,
            fence@ == fence3(),
            dollars@ == dd(),
            btoks(ls, 0, dp) == done + btoks(ls, i as int, dp),
            blocks@.len() == done.len(),
            forall|k: int| 0 <= k < done.len() ==> btok_rel(done[k], #[trigger] blocks@[k], dp),
        decreases n - i,
    {
        let ghost i0 = i as int;
        let ghost mut tok: BTok = BTok::Skip;
        let mut out: Option<Block> = None;
        assert(ls[i0] == lines@[i0]@);
        let t = trim_chars(&lines[i]);
        if is_blank_chars(&lines[i]) {
            i = i + 1;
        } else if starts_with(&t, &fence) {
            let lang = trim_chars(&subvec(&t, 3, t.len()));
            let mut content: Vec<char> = Vec::new();
            let open = i;
            i = i + 1;
            let mut closed = false;
            while i < n && !closed
                invariant
                    open < i <= n,
                    n == lines.len(),
                    ls == lines.deep_view(),
                    fence@ == fence3(),
                    content@ == lines_nl(ls, open + 1, i as int),
                    fence_close(ls, i as int) == fence_close(ls, open + 1),
                    closed ==> i < n && trim(ls[i as int]) == fence3(),
                decreases n - i + (if closed {
                    0int
                } else {
                    1int
                }),
            {
                assert(ls[i as int] == lines@[i as int]@);
                let nt = trim_chars(&lines[i]);
                if crate::text::same_chars(&nt, &fence) {
                    closed = true;
                } else {
                    push_all(&mut content, &lines[i]);
                    content.push('\n');
                    i = i + 1;
                }
            }
            let close = i;
            if closed {
                i = i + 1;
            }
            let language = if lang.len() == 0 {
                None
            } else {
                Some(string_of(&lang))
            };
            proof {
                tok = BTok::Code(fence_lang(t@), lines_nl(ls, open + 1, close as int));
                assert(bstep(ls, i0) == (tok, i as int));
            }
            out = Some(Block::Leaf { leaf: LeafBlock::CodeBlock { language, content: string_of(&content) } });
        } else if starts_with(&t, &dollars) {
            let rest = subvec(&t, 2, t.len());
            if crate::text::ends_with(&rest, &dollars) {
                let inner = subvec(&rest, 0, rest.len() - 2);
                proof {
                    tok = BTok::Math(inner@);
                }
                out = Some(Block::Leaf { leaf: LeafBlock::MathBlock { content: string_of(&inner) } });
                i = i + 1;
                assert(bstep(ls, i0) == (tok, i as int));
            } else {
                let mut full = rest;
                let open = i;
                i = i + 1;
                let mut closed = false;
                while i < n && !closed
                    invariant
                        open < i <= n,
                        n == lines.len(),
                        ls == lines.deep_view(),
                        dollars@ == dd(),
                        !closed ==> math_acc(ls, i as int, full@) == math_acc(ls, open + 1, rest@),
                        closed ==> math_acc(ls, open + 1, rest@) == (full@, i as int),
                    decreases n - i,
                {
                    assert(ls[i as int] == lines@[i as int]@);
                    let nt = crate::text::trim_end_chars(&lines[i]);
                    i = i + 1;
                    if full.len() > 0 {
                        full.push('\n');
                    }
                    if crate::text::ends_with(&nt, &dollars) {
                        push_all(&mut full, &subvec(&nt, 0, nt.len() - 2));
                        closed = true;
                    } else {
                        push_all(&mut full, &nt);
                    }
                }
                let ghost acc = full@;
                if full.len() > 0 && full[full.len() - 1] == '\n' {
                    full.pop();
                }
                proof {
                    assert(math_acc(ls, open + 1, rest@) == (acc, i as int));
                    tok = BTok::Math(strip_nl(acc));
                    assert(full@ =~= strip_nl(acc));
                    assert(bstep(ls, i0) == (tok, i as int));
                }
                out = Some(Block::Leaf { leaf: LeafBlock::MathBlock { content: string_of(&full) } });
            }
        } else if let Some(h) = header_of(&t) {
            proof {
                tok = BTok::Heading(t@);
            }
            out = Some(h);
            i = i + 1;
            assert(bstep(ls, i0) == (tok, i as int));
        } else if t.len() > 0 && t[0] == '>' {
            let mut quoted_lines: Vec<Vec<char>> = Vec::new();
            let first = trim_start_chars(&subvec(&t, 1, t.len()));
            let ghost first_v = first@;
            quoted_lines.push(first);
            proof {
                assert(quoted_lines@ == seq![first]);
                assert(first.deep_view() =~= first@);
                assert(quoted_lines.deep_view() =~= seq![first_v] + quoted(ls, i0 + 1, i0 + 1));
            }
            let open = i;
            i = i + 1;
            let mut more = true;
            while i < n && more
                invariant
                    open < i <= n,
                    !more ==> i < n && !quote_line(ls[i as int]),
                    n == lines.len(),
                    ls == lines.deep_view(),
                    quote_end(ls, i as int) == quote_end(ls, open + 1),
                    quoted_lines.deep_view() == seq![trim_start(trim(ls[open as int]).subrange(1, trim(ls[open as int]).len() as int))] + quoted(ls, open + 1, i as int),
                decreases n - i + (if more {
                    1int
                } else {
                    0int
                }),
            {
                assert(ls[i as int] == lines@[i as int]@);
                let nt = trim_start_chars(&lines[i]);
                if nt.len() > 0 && nt[0] == '>' {
                    let piece = trim_start_chars(&subvec(&nt, 1, nt.len()));
                    let ghost before = quoted_lines.deep_view();
                    let ghost before_v = quoted_lines@;
                    quoted_lines.push(piece);
                    proof {
                        assert(quoted_lines@ == before_v.push(piece));
                        assert(piece.deep_view() =~= piece@);
                        assert(quoted_lines.deep_view() =~= before.push(piece@));
                        assert(quoted_lines.deep_view() =~= seq![trim_start(trim(ls[open as int]).subrange(1, trim(ls[open as int]).len() as int))] + quoted(ls, open + 1, i + 1));
                    }
                    i = i + 1;
                } else {
                    more = false;
                }
            }
            let joined = trim_chars(&crate::text::join_range(&quoted_lines, 0, quoted_lines.len()));
            proof {
                assert(quoted_lines.deep_view().subrange(0, quoted_lines@.len() as int) =~= quoted_lines.deep_view());
                tok = BTok::Quote(quote_text(ls, open as int, i as int));
                assert(bstep(ls, i0) == (tok, i as int));
            }
            if joined.len() > 0 {
                if depth > 0 {
                    let inner_lines = crate::text::split_lines(&joined);
                    out = Some(Block::Container {
                        container: ContainerBlock::Quote { blocks: blocks_of(&inner_lines, depth - 1) },
                    });
                } else {
                    out = Some(Block::Leaf {
                        leaf: LeafBlock::Paragraph { content: parse_inlines_chars(&joined) },
                    });
                }
            }
        } else if list_start(&t) {
            let start = i;
            i = i + 1;
            let mut more = true;
            while i < n && more
                invariant
                    start < i <= n,
                    !more ==> i < n && !list_line(ls[i as int]),
                    n == lines.len(),
                    ls == lines.deep_view(),
                    list_end(ls, i as int) == list_end(ls, start + 1),
                decreases n - i + (if more {
                    1int
                } else {
                    0int
                }),
            {
                assert(ls[i as int] == lines@[i as int]@);
                let nt = trim_start_chars(&lines[i]);
                if nt.len() == 0 || list_start(&nt) {
                    i = i + 1;
                } else {
                    more = false;
                }
            }
            let run = line_range(lines, start, i);
            proof {
                assert(run.deep_view().len() == run@.len());
                assert(run.deep_view().len() == i - start);
                tok = BTok::List(ls.subrange(start as int, i as int));
                assert(bstep(ls, i0) == (tok, i as int));
            }
            if depth > 0 {
                match list_of(&run, depth - 1) {
                    Some(list) => {
                        out = Some(list);
                        proof {
                            let j = choose|j: int| 0 <= j < run@.len() && item_line(#[trigger] run.deep_view()[j]);
                            assert(run.deep_view()[j] == ls.subrange(start as int, i as int)[j]);
                            assert(item_line(ls.subrange(start as int, i as int)[j]));
                            assert(produces(ls, tok, dp));
                        }
                    },
                    None => {
                        proof {
                            assert forall|j: int| 0 <= j < i - start implies !item_line(#[trigger] ls.subrange(start as int, i as int)[j]) by {
                                assert(run.deep_view()[j] == ls.subrange(start as int, i as int)[j]);
                            }
                        }
                    },
                }
            }
        } else {
            let mut table: Option<Block> = None;
            let start = i;
            if has_pipe_chars(&lines[i]) {
                let mut end = i + 1;
                while end < n && has_pipe_chars(&lines[end])
                    invariant
                        start < end <= n,
                        n == lines.len(),
                        ls == lines.deep_view(),
                        pipe_end(ls, end as int) == pipe_end(ls, start + 1),
                        forall|k: int| start <= k < end ==> has_pipe(#[trigger] ls[k]),
                    decreases n - end,
                {
                    assert(ls[end as int] == lines@[end as int]@);
                    end = end + 1;
                }
                if end < n {
                    assert(ls[end as int] == lines@[end as int]@);
                }
                if end - start >= 2 {
                    let run = line_range(lines, start, end);
                    proof {
                        assert forall|k: int| 0 <= k < run.deep_view().len() implies has_pipe(#[trigger] run.deep_view()[k]) by {
                            assert(run.deep_view()[k] == ls[start + k]);
                        }
                        lemma_all_pipes(run.deep_view());
                        lemma_pipe_rows_all(run.deep_view());
                    }
                    table = table_of(&run);
                    i = end;
                    proof {
                        tok = BTok::Table(ls.subrange(start as int, end as int));
                        assert(bstep(ls, i0) == (tok, i as int));
                    }
                }
            }
            match table {
                Some(tb) => {
                    out = Some(tb);
                },
                None => {
                    match image_only(&t) {
                        Some(img) => {
                            proof {
                                tok = BTok::Image(t@);
                            }
                            out = Some(img);
                        },
                        None => {
                            proof {
                                tok = BTok::Para(t@);
                            }
                            out = Some(Block::Leaf { leaf: LeafBlock::Paragraph { content: parse_inlines_chars(&t) } });
                        },
                    }
                    i = i + 1;
                },
            }
        }
        proof {
            assert(bstep(ls, i0) == (tok, i as int));
            assert(i0 < i <= n);
        }
        let ghost before = blocks@;
        match out {
            Some(b) => {
                proof {
                    assert(produces(ls, tok, dp));
                    assert(btok_rel(tok, b, dp));
                }
                blocks.push(b);
                proof {
                    let d0 = done;
                    assert(btoks(ls, i0, dp) == seq![tok] + btoks(ls, i as int, dp));
                    done = done.push(tok);
                    assert(btoks(ls, 0, dp) =~= done + btoks(ls, i as int, dp));
                    assert forall|k: int| 0 <= k < done.len() implies btok_rel(done[k], #[trigger] blocks@[k], dp) by {
                        if k < d0.len() {
                            assert(blocks@[k] == before[k]);
                        }
                    }
                }
            },
            None => {
                proof {
                    assert(!produces(ls, tok, dp));
                    assert(btoks(ls, i0, dp) == btoks(ls, i as int, dp));
                }
            },
        }
    }
    proof {
        assert(btoks(ls, n as int, dp) =~= Seq::<BTok>::empty());
        assert(done =~= btoks(ls, 0, dp));
        lemma_brel_from(ls, done, blocks@, dp, 0);
    }
    blocks
}

/// The blocks of a Markdown text: fenced code, math, headings, quotes, lists, tables,
/// image-only lines and paragraphs; see `blocks_rel`.
pub fn parse_blocks(input: &str) -> (r: Vec<Block>)
    ensures
        blocks_rel(lines_of(input@), r@, input@.len() as int),
{
    let lines = lines_of_str(input);
    let depth = input.unicode_len();
    blocks_of(&lines, depth)
}

/// `n` times `#`, a space, and `X`.
pub open spec fn hash_line(n: nat) -> Seq<char> {
    Seq::new(n, |_i: int| '#') + seq![' ', 'X']
}

proof fn lemma_hash_run(n: nat, i: int)
    requires
        0 <= i <= n,
    ensures
        run_end(hash_line(n), '#', i) == n,
    decreases n - i,
{
    let s = hash_line(n);
    if i < n {
        assert(s[i] == '#');
        lemma_hash_run(n, i + 1);
    } else {
        assert(s[i] == ' ');
    }
}

proof fn lemma_trim_single_x()
    ensures
        trim(seq!['X']) == seq!['X'],
        trim(seq![' ', 'X']) == seq!['X'],
        trim_start(seq![' ', 'X']) == seq!['X'],
{
    let x = seq!['X'];
    let sx = seq![' ', 'X'];
    assert(!crate::text::is_space('X'));
    assert(crate::text::is_space(' '));
    assert(crate::text::lead_end(x, 0) == 0);
    assert(trim_start(x) =~= x);
    assert(crate::text::trail_start(x, 1) == 1);
    assert(crate::text::trim_end(x) =~= x);
    assert(crate::text::lead_end(sx, 1) == 1);
    assert(crate::text::lead_end(sx, 0) == 1);
    assert(trim_start(sx) =~= x);
}

/// A line of one to six `#`, a space and `X` is a heading of that level whose text is `X`,
/// for the note parser and the block parser alike; with no `#`, or more than six, it is
/// no heading.
pub proof fn lemma_heading_round_trip(n: nat)
    ensures
        1 <= n <= 6 ==> md_heading_level(hash_line(n)) == Some(n as u8) && header_text(
            hash_line(n),
        ) == seq!['X'] && crate::parsers::md_heading_text(hash_line(n)) == seq!['X'],
        n == 0 || n > 6 ==> md_heading_level(hash_line(n)) is None,
{
    let s = hash_line(n);
    lemma_trim_single_x();
    if n == 0 {
        assert(s =~= seq![' ', 'X']);
        assert(trim_start(s) =~= seq!['X']);
        assert(run_end(seq!['X'], '#', 0) == 0);
    } else {
        assert(s[0] == '#');
        assert(!crate::text::is_space('#'));
        assert(crate::text::lead_end(s, 0) == 0);
        assert(trim_start(s) =~= s);
        lemma_hash_run(n, 0);
        assert(s[n as int] == ' ');
        assert(s.subrange(n + 1 as int, s.len() as int) =~= seq!['X']);
        assert(s.subrange(n as int, s.len() as int) =~= seq![' ', 'X']);
    }
}

proof fn lemma_prefix_head(t: Seq<char>, p: Seq<char>)
    requires
        has_prefix(t, p),
        p.len() > 0,
    ensures
        t.len() > 0 && t[0] == p[0],
{
    assert(t.subrange(0, p.len() as int)[0] == t[0]);
}

proof fn lemma_single_line(s: Seq<char>, i: int)
    requires
        0 <= i <= s.len(),
        s.len() > 0,
        forall|k: int| 0 <= k < s.len() ==> s[k] != '\n',
    ensures
        crate::text::lines_acc(s, 0, i) == seq![crate::text::strip_cr(s)],
    decreases s.len() - i,
{
    if i < s.len() {
        lemma_single_line(s, i + 1);
    } else {
        assert(s.subrange(0, s.len() as int) =~= s);
    }
}

/// A line of `#` that is not one to six long, then a space and `X`, read as blocks, is one
/// paragraph and no heading.
pub proof fn lemma_long_hash_line_is_paragraph(n: nat, bs: Seq<Block>, depth: int)
    requires
        n == 0 || n > 6,
        blocks_rel(lines_of(hash_line(n)), bs, depth),
    ensures
        bs.len() == 1,
        bs[0] matches Block::Leaf { leaf: LeafBlock::Paragraph { .. } },
{
    let s = hash_line(n);
    lemma_heading_round_trip(n);
    lemma_trim_single_x();
    assert(s[s.len() - 1] == 'X');
    assert forall|k: int| 0 <= k < s.len() implies s[k] != '\n' && s[k] != '|' by {
        if k < n {
            assert(s[k] == '#');
        } else if k == n {
            assert(s[k] == ' ');
        } else {
            assert(s[k] == 'X');
        }
    }
    lemma_single_line(s, 0);
    assert(crate::text::strip_cr(s) == s);
    let ls = lines_of(s);
    assert(ls == seq![s]);
    assert(ls[0] == s);
    let t = trim(s);
    if n == 0 {
        assert(s =~= seq![' ', 'X']);
        assert(t == seq!['X']);
        assert(crate::text::lead_end(seq!['X'], 0) == 0);
        assert(trim_start(seq!['X']) =~= seq!['X']);
        assert(run_end(seq!['X'], '#', 0) == 0);
        assert(md_heading_level(t) is None);
    } else {
        assert(s[0] == '#');
        assert(!crate::text::is_space('#'));
        assert(crate::text::lead_end(s, 0) == 0);
        assert(trim_start(s) =~= s);
        assert(crate::text::trail_start(s, s.len() as int) == s.len());
        assert(crate::text::trim_end(s) =~= s);
        assert(t == s);
    }
    assert(t.len() > 0 && (t[0] == '#' || t[0] == 'X'));
    assert(!crate::text::is_blank(s)) by {
        assert(!crate::text::is_space(s[s.len() - 1]));
    }
    if has_prefix(t, fence3()) {
        lemma_prefix_head(t, fence3());
    }
    if has_prefix(t, dd()) {
        lemma_prefix_head(t, dd());
    }
    if has_prefix(t, seq!['-', ' ']) {
        lemma_prefix_head(t, seq!['-', ' ']);
    }
    if has_prefix(t, seq!['*', ' ']) {
        lemma_prefix_head(t, seq!['*', ' ']);
    }
    if has_prefix(t, seq!['+', ' ']) {
        lemma_prefix_head(t, seq!['+', ' ']);
    }
    assert(!list_start_spec(t));
    assert(!has_pipe(s));
    if image_line(t) is Some {
        let (a, b, c, d) = image_parts(t)->0;
        let img = seq!['!', '['] + t.subrange(a, b) + seq![']', '('] + t.subrange(c, d) + seq![')'];
        assert(t == img);
        assert(img[0] == '!');
    }
    assert(bstep(ls, 0) == (BTok::Para(t), 1int));
    assert(btoks(ls, 1, depth) =~= Seq::<BTok>::empty());
    assert(btoks(ls, 0, depth) =~= seq![BTok::Para(t)]);
    assert(btok_rel(BTok::Para(t), bs[0], depth));
}

proof fn lemma_list_end_bounds(ls: Seq<Seq<char>>, j: int)
    requires
        0 <= j <= ls.len(),
    ensures
        j <= list_end(ls, j) <= ls.len(),
    decreases ls.len() - j,
{
    if j < ls.len() && list_line(ls[j]) {
        lemma_list_end_bounds(ls, j + 1);
    }
}

/// A trimmed line that opens a list run is no fence, math, heading or quote line.
proof fn lemma_list_line_kind(t: Seq<char>)
    requires
        list_start_spec(t),
    ensures
        t.len() > 0,
        !has_prefix(t, fence3()),
        !has_prefix(t, dd()),
        md_heading_level(t) is None,
        !(t.len() > 0 && t[0] == '>'),
{
    assert(t.len() > 0 && (t[0] == '-' || t[0] == '*' || t[0] == '+' || is_digit(t[0]))) by {
        if has_prefix(t, seq!['-', ' ']) {
            assert(t.subrange(0, 2)[0] == '-');
        } else if has_prefix(t, seq!['*', ' ']) {
            assert(t.subrange(0, 2)[0] == '*');
        } else if has_prefix(t, seq!['+', ' ']) {
            assert(t.subrange(0, 2)[0] == '+');
        }
    }
    assert(!crate::text::is_space(t[0]));
    assert(crate::text::lead_end(t, 0) == 0);
    assert(trim_start(t) =~= t);
    assert(run_end(t, '#', 0) == 0);
    if has_prefix(t, fence3()) {
        assert(t.subrange(0, 3)[0] == '`');
    }
    if has_prefix(t, dd()) {
        assert(t.subrange(0, 2)[0] == '$');
    }
}

/// The step at a line that opens a list run reads that run.
proof fn lemma_list_step(nl: Seq<Seq<char>>)
    requires
        nl.len() > 0,
        !is_blank(nl[0]),
        list_start_spec(trim(nl[0])),
    ensures
        1 <= list_end(nl, 1) <= nl.len(),
        bstep(nl, 0) == (BTok::List(nl.subrange(0, list_end(nl, 1))), list_end(nl, 1)),
{
    lemma_list_line_kind(trim(nl[0]));
    lemma_list_end_bounds(nl, 1);
}

/// A list run whose first line opens an item yields a list block first.
proof fn lemma_list_first(nl: Seq<Seq<char>>, rest: Seq<Block>, d: int)
    requires
        nl.len() > 0,
        !is_blank(nl[0]),
        list_start_spec(trim(nl[0])),
        item_line(nl[0]),
        d > 0,
        blocks_rel(nl, rest, d),
    ensures
        rest.len() >= 1,
        rest[0] matches Block::Container { container: ContainerBlock::List { .. } },
{
    lemma_list_step(nl);
    let e = list_end(nl, 1);
    let run = nl.subrange(0, e);
    assert(run[0] == nl[0]);
    assert(exists|j: int| 0 <= j < run.len() && item_line(#[trigger] run[j]));
    assert(produces(nl, BTok::List(run), d));
    assert(btoks(nl, 0, d) == seq![BTok::List(run)] + btoks(nl, e, d));
    assert(btoks(nl, 0, d)[0] == BTok::List(run));
    assert(btok_rel(BTok::List(run), rest[0], d));
}

/// When the first item line of a list is followed by a more deeply indented line that opens a
/// list (its trimmed form starts with a bullet and a space, or a digit), the first item's
/// blocks hold that nested list right after the item's own paragraph.
pub proof fn lemma_nested_list_in_item(ls: Seq<Seq<char>>, bs: Seq<Block>, depth: int)
    requires
        ls.len() >= 2,
        item_line(ls[1]),
        list_start_spec(trim(ls[1])),
        indent_of(ls[1]) > indent_of(ls[0]),
        depth >= 2,
        item_blocks_ok(ls, 0, bs, depth),
    ensures
        bs.len() >= 2,
        bs[1] matches Block::Container { container: ContainerBlock::List { .. } },
{
    let l = ls[1];
    crate::text::lemma_blank_iff_trim_empty(l);
    let ts = trim_start(l);
    assert(ts.len() > 0) by {
        if !(has_prefix(ts, seq!['-', ' ']) || has_prefix(ts, seq!['*', ' ']) || has_prefix(
            ts,
            seq!['+', ' '],
        )) {
            assert(ordered_marker(ts));
        }
    }
    let nl = nested_from(ls, 1, indent_of(ls[0]));
    assert(nl == seq![l] + nested_from(ls, 2, indent_of(ls[0])));
    assert(nl[0] == l);
    let rest = bs.subrange(1, bs.len() as int);
    assert(blocks_rel(nl, rest, depth - 1));
    lemma_list_first(nl, rest, depth - 1);
    assert(rest[0] == bs[1]);
}

} // verus!
