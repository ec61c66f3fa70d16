//! The HTML reader: a tokenizer and a tree builder with simple error recovery.
use vstd::prelude::*;
use crate::text::{
    is_ws, trim, occurs_at, find_from, chars_of, slice_of, push_all, trim_bounds, trim_chars,
    occurs_str_at, find_str_from, find_chars_from, string_of, lemma_find_from_props,
};
use crate::strmap::StrMap;
use crate::dom::{Node, ElementNode, SpecNode, view_node, view_nodes, lemma_view_nodes, lemma_view_nodes_push};
use crate::html_lex::{
    collapse, collapse_whitespace, decode, decode_entities, tag_end_from, find_tag_end,
    spec_open_tag, TagToken, parse_open_tag, is_raw, is_raw_text_tag, is_void, is_void_tag,
};

verus! {

/// A token of the HTML source.
pub enum Token {
    OpenTag(TagToken),
    CloseTag(String),
    Text(String),
}

/// The mathematical value of a token.
pub enum SpecToken {
    Open(Seq<char>, Seq<(Seq<char>, Seq<char>)>),
    Close(Seq<char>),
    Text(Seq<char>),
}

pub open spec fn view_token(t: Token) -> SpecToken {
    match t {
        Token::OpenTag(tag) => SpecToken::Open(tag.tag_name@, tag.attributes.pairs()),
        Token::CloseTag(n) => SpecToken::Close(n@),
        Token::Text(t) => SpecToken::Text(t@),
    }
}

pub open spec fn view_tokens(ts: Seq<Token>) -> Seq<SpecToken> {
    ts.map_values(|t: Token| view_token(t))
}

/// The text token that a run of buffered text gives, if it holds more than white space.
pub open spec fn flush(buf: Seq<char>) -> Seq<SpecToken> {
    let c = collapse(buf, false);
    if trim(c).len() > 0 {
        seq![SpecToken::Text(decode(c))]
    } else {
        seq![]
    }
}

/// The text token of a raw-text element's content, if it holds more than white space.
pub open spec fn raw_tok(r: Seq<char>) -> Seq<SpecToken> {
    if trim(r).len() > 0 {
        seq![SpecToken::Text(trim(r))]
    } else {
        seq![]
    }
}

/// The closing tag that ends a raw-text element.
pub open spec fn close_tag_of(name: Seq<char>) -> Seq<char> {
    seq!['<', '/'] + name + seq!['>']
}

/// What the tag starting at `i` and ending at `e` yields: its tokens, and the index
/// where reading goes on (`None` when the input ends inside a raw-text element).
pub open spec fn tag_step(src: Seq<char>, i: int, e: int) -> (Seq<SpecToken>, Option<int>) {
    if occurs_at(src, "<!DOCTYPE"@, i) || occurs_at(src, "<!doctype"@, i) {
        (seq![], Some(e + 1))
    } else if occurs_at(src, "<!--"@, i) {
        match find_from(src, "-->"@, i) {
            Some(c) => (seq![], Some(c + 3)),
            None => (seq![], Some(i + 4)),
        }
    } else {
        let tag = trim(src.subrange(i + 1, e));
        let ni = e + 1;
        if tag.len() > 0 && tag[0] == '/' {
            (seq![SpecToken::Close(trim(tag.drop_first()))], Some(ni))
        } else if tag.len() == 0 {
            (seq![], Some(ni))
        } else {
            let (name, attrs) = spec_open_tag(tag);
            let open = seq![SpecToken::Open(name, attrs)];
            if is_raw(name) {
                let close = close_tag_of(name);
                match find_from(src, close, ni) {
                    Some(c) => (
                        open + raw_tok(decode(src.subrange(ni, c))) + seq![SpecToken::Close(name)],
                        Some(c + close.len()),
                    ),
                    None => (open + raw_tok(decode(src.skip(ni))), None),
                }
            } else {
                (open, Some(ni))
            }
        }
    }
}

/// The tokens of `src[i..]`, with `buf` the text read since the last tag.
pub open spec fn tok_from(src: Seq<char>, i: int, buf: Seq<char>) -> Seq<SpecToken>
    decreases src.len() - i,
{
    if i < 0 || i >= src.len() {
        flush(buf)
    } else if src[i] != '<' {
        tok_from(src, i + 1, buf.push(src[i]))
    } else {
        let pre = flush(buf);
        match tag_end_from(src, i, None) {
            None => pre + tok_from(src, i + 1, seq!['<']),
            Some(e) => {
                if e <= i || e >= src.len() {
                    pre
                } else {
                    let step = tag_step(src, i, e);
                    match step.1 {
                        Some(j) => {
                            if j <= i || j > src.len() {
                                pre + step.0
                            } else {
                                pre + step.0 + tok_from(src, j, seq![])
                            }
                        },
                        None => pre + step.0,
                    }
                }
            },
        }
    }
}

/// The tokens of an HTML source.
pub open spec fn spec_tokenize(src: Seq<char>) -> Seq<SpecToken> {
    tok_from(src, 0, seq![])
}

/// Reading a tag always moves forward, and stays within the input.
pub proof fn lemma_tag_step_progress(src: Seq<char>, i: int, e: int)
    requires
        0 <= i < e < src.len(),
    ensures
        tag_step(src, i, e).1 matches Some(j) ==> i < j <= src.len(),
{
    reveal_strlit("<!DOCTYPE");
    reveal_strlit("<!doctype");
    reveal_strlit("<!--");
    reveal_strlit("-->");
    lemma_find_from_props(src, "-->"@, i);
    let tag = trim(src.subrange(i + 1, e));
    if tag.len() > 0 {
        let name = spec_open_tag(tag).0;
        lemma_find_from_props(src, close_tag_of(name), e + 1);
    }
}

pub proof fn lemma_tag_end_ge(s: Seq<char>, j: int, q: Option<char>)
    ensures
        tag_end_from(s, j, q) matches Some(e) ==> j <= e < s.len() && s[e] == '>',
    decreases s.len() - j,
{
    if 0 <= j < s.len() {
        lemma_tag_end_ge(s, j + 1, None);
        lemma_tag_end_ge(s, j + 1, Some('"'));
        lemma_tag_end_ge(s, j + 1, Some('\''));
        lemma_tag_end_ge(s, j + 1, q);
    }
}

proof fn lemma_view_tokens_push(ts: Seq<Token>, t: Token)
    ensures
        view_tokens(ts.push(t)) == view_tokens(ts).push(view_token(t)),
{
    assert(view_tokens(ts.push(t)) =~= view_tokens(ts).push(view_token(t)));
}

/// Pushes the text token for the buffered text, if any.
fn flush_text(buf: &Vec<char>, tokens: &mut Vec<Token>)
    ensures
        view_tokens(final(tokens)@) == view_tokens(old(tokens)@) + flush(buf@),
{
    if buf.len() > 0 {
        let collapsed = collapse_whitespace(buf.as_slice());
        let (lo, hi) = trim_bounds(collapsed.as_slice());
        if lo < hi {
            let decoded = decode_entities(collapsed.as_slice());
            tokens.push(Token::Text(string_of(decoded.as_slice())));
            assert(view_tokens(tokens@) =~= view_tokens(old(tokens)@) + flush(buf@));
            return;
        }
    } else {
        assert(collapse(buf@, false) =~= Seq::<char>::empty());
        assert(trim(Seq::<char>::empty()) =~= Seq::<char>::empty());
    }
    assert(view_tokens(tokens@) =~= view_tokens(old(tokens)@) + flush(buf@));
}

/// Pushes the text token for raw-text content, if it holds more than white space.
fn push_raw_text(raw: &Vec<char>, tokens: &mut Vec<Token>)
    ensures
        view_tokens(final(tokens)@) == view_tokens(old(tokens)@) + raw_tok(raw@),
{
    let t = trim_chars(raw.as_slice());
    if t.len() > 0 {
        tokens.push(Token::Text(string_of(t.as_slice())));
    }
    assert(view_tokens(tokens@) =~= view_tokens(old(tokens)@) + raw_tok(raw@));
}

/// Reads the tag that starts at `i` (whose end is `e`): a doctype or comment is skipped,
/// a close tag or open tag is pushed, and a raw-text element is read to its close tag.
/// Returns the index after what was read, or `None` when the input ends inside a raw-text
/// element.
fn read_tag(src: &Vec<char>, i: usize, e: usize, tokens: &mut Vec<Token>) -> (r: Option<usize>)
    requires
        i < e < src@.len(),
    ensures
        view_tokens(final(tokens)@) == view_tokens(old(tokens)@) + tag_step(src@, i as int, e as int).0,
        match r {
            Some(j) => tag_step(src@, i as int, e as int).1 == Some(j as int),
            None => tag_step(src@, i as int, e as int).1 is None,
        },
{
    proof {
        reveal_strlit("<!DOCTYPE");
        reveal_strlit("<!doctype");
        reveal_strlit("<!--");
        reveal_strlit("-->");
    }
    let ghost s = src@;
    let ghost before = view_tokens(tokens@);
    let n = src.len();
    assert(view_tokens(tokens@) =~= before + Seq::<SpecToken>::empty());
    if occurs_str_at(src.as_slice(), "<!DOCTYPE", i) || occurs_str_at(src.as_slice(), "<!doctype", i) {
        return Some(e + 1);
    }
    if occurs_str_at(src.as_slice(), "<!--", i) {
        match find_str_from(src.as_slice(), "-->", i) {
            Some(c) => {
                proof {
                    lemma_find_from_props(s, "-->"@, i as int);
                    assert(occurs_at(s, "-->"@, c as int));
                }
                return Some(c + 3);
            },
            None => {
                return Some(i + 4);
            },
        }
    }
    let inner = slice_of(src.as_slice(), i + 1, e);
    let tag = trim_chars(inner.as_slice());
    let ni = e + 1;
    if tag.len() > 0 && tag[0] == '/' {
        let stripped = slice_of(tag.as_slice(), 1, tag.len());
        let name = trim_chars(stripped.as_slice());
        let ghost tk = tokens@;
        let close = Token::CloseTag(string_of(name.as_slice()));
        tokens.push(close);
        proof {
            lemma_view_tokens_push(tk, close);
            assert(stripped@ =~= tag@.drop_first());
        }
        return Some(ni);
    }
    if tag.len() == 0 {
        return Some(ni);
    }
    let open_tag = parse_open_tag(tag.as_slice());
    let name_chars = chars_of(open_tag.tag_name.as_str());
    let raw_text_tag = is_raw_text_tag(name_chars.as_slice());
    let ghost open_view = view_token(Token::OpenTag(open_tag));
    let ghost tk = tokens@;
    proof {
        assert(open_view == SpecToken::Open(spec_open_tag(tag@).0, spec_open_tag(tag@).1));
    }
    tokens.push(Token::OpenTag(open_tag));
    proof {
        lemma_view_tokens_push(tk, Token::OpenTag(open_tag));
    }
    if !raw_text_tag {
        return Some(ni);
    }
    let mut close_tag: Vec<char> = Vec::new();
    close_tag.push('<');
    close_tag.push('/');
    push_all(&mut close_tag, name_chars.as_slice());
    close_tag.push('>');
    assert(close_tag@ =~= close_tag_of(name_chars@));
    match find_chars_from(src.as_slice(), close_tag.as_slice(), ni) {
        Some(c) => {
            proof {
                lemma_find_from_props(s, close_tag@, ni as int);
            }
            let content = slice_of(src.as_slice(), ni, c);
            let raw = decode_entities(content.as_slice());
            push_raw_text(&raw, tokens);
            let ghost tk2 = tokens@;
            let ct = Token::CloseTag(string_of(name_chars.as_slice()));
            tokens.push(ct);
            proof {
                lemma_view_tokens_push(tk2, ct);
                assert(view_tokens(tokens@) =~= before + (seq![open_view] + raw_tok(decode(content@)) + seq![SpecToken::Close(name_chars@)]));
            }
            Some(c + close_tag.len())
        },
        None => {
            let content = slice_of(src.as_slice(), ni, n);
            let raw = decode_entities(content.as_slice());
            push_raw_text(&raw, tokens);
            proof {
                assert(content@ =~= s.skip(ni as int));
                assert(view_tokens(tokens@) =~= before + (seq![open_view] + raw_tok(decode(content@))));
            }
            None
        },
    }
}

/// Splits an HTML source into open tags, close tags and text.
#[verifier::rlimit(40)]
pub fn tokenize(source: &str) -> (r: Vec<Token>)
    ensures
        view_tokens(r@) == spec_tokenize(source@),
{
    let src = chars_of(source);
    let n = src.len();
    let mut tokens: Vec<Token> = Vec::new();
    let mut text_buffer: Vec<char> = Vec::new();
    let mut index: usize = 0;
    proof {
        assert(view_tokens(tokens@) =~= Seq::<SpecToken>::empty());
    }
    while index < n
        invariant_except_break
            spec_tokenize(src@) == view_tokens(tokens@) + tok_from(src@, index as int, text_buffer@),
        invariant
            n == src@.len(),
            src@ == source@,
            index <= n,
        ensures
            spec_tokenize(src@) == view_tokens(tokens@) + flush(text_buffer@),
        decreases n - index,
    {
        let ch = src[index];
        let ghost s = src@;
        let ghost i = index as int;
        if ch == '<' {
            let tag_end = find_tag_end(src.as_slice(), index);
            proof {
                lemma_tag_end_ge(s, i + 1, None);
            }
            match tag_end {
                None => {
                    let ghost buf0 = text_buffer@;
                    let ghost before = view_tokens(tokens@);
                    flush_text(&text_buffer, &mut tokens);
                    text_buffer = Vec::new();
                    text_buffer.push(ch);
                    index = index + 1;
                    proof {
                        assert(text_buffer@ =~= seq!['<']);
                        assert(tok_from(s, i, buf0) == flush(buf0) + tok_from(s, i + 1, seq!['<']));
                        assert(spec_tokenize(s) =~= view_tokens(tokens@) + tok_from(
                            s,
                            index as int,
                            text_buffer@,
                        ));
                    }
                },
                Some(e) => {
                    let ghost buf0 = text_buffer@;
                    let ghost before = view_tokens(tokens@);
                    flush_text(&text_buffer, &mut tokens);
                    text_buffer = Vec::new();
                    proof {
                        assert(text_buffer@ =~= Seq::<char>::empty());
                    }
                    let ghost mid = view_tokens(tokens@);
                    let step = read_tag(&src, index, e, &mut tokens);
                    let ghost st = tag_step(s, i, e as int);
                    proof {
                        lemma_tag_step_progress(s, i, e as int);
                    }
                    match step {
                        Some(j) => {
                            index = j;
                            proof {
                                assert(tok_from(s, i, buf0) == flush(buf0) + st.0 + tok_from(s, j as int, seq![]));
                                assert(spec_tokenize(s) =~= view_tokens(tokens@) + tok_from(
                                    s,
                                    index as int,
                                    text_buffer@,
                                ));
                            }
                        },
                        None => {
                            proof {
                                assert(collapse(Seq::<char>::empty(), false) =~= Seq::<char>::empty());
                                assert(trim(Seq::<char>::empty()) =~= Seq::<char>::empty());
                                assert(flush(Seq::<char>::empty()) =~= Seq::<SpecToken>::empty());
                                assert(tok_from(s, i, buf0) == flush(buf0) + st.0);
                                assert(spec_tokenize(s) =~= view_tokens(tokens@) + flush(text_buffer@));
                            }
                            break;
                        },
                    }
                },
            }
        } else {
            text_buffer.push(ch);
            index = index + 1;
        }
    }
    flush_text(&text_buffer, &mut tokens);
    tokens
}

/// The node read at `pos` and the position after it; `None` at a close tag.
pub open spec fn parse_node_at(toks: Seq<SpecToken>, pos: int) -> Option<(SpecNode, int)>
    decreases toks.len() - pos, 0int,
{
    if pos < 0 || pos >= toks.len() {
        None
    } else {
        match toks[pos] {
            SpecToken::Text(t) => Some((SpecNode::Text(t), pos + 1)),
            SpecToken::Open(name, attrs) => {
                if is_void(name) {
                    Some((SpecNode::Element(name, attrs, seq![]), pos + 1))
                } else {
                    let (cs, p2) = parse_children_at(toks, pos + 1, name);
                    Some((SpecNode::Element(name, attrs, cs), p2))
                }
            },
            SpecToken::Close(_) => None,
        }
    }
}

/// The children of element `name` read from `pos`, and the position after them: a close
/// tag for `name` is consumed, any other close tag is left for an enclosing element.
pub open spec fn parse_children_at(toks: Seq<SpecToken>, pos: int, name: Seq<char>) -> (
    Seq<SpecNode>,
    int,
)
    decreases toks.len() - pos, 1int,
{
    if pos < 0 || pos >= toks.len() {
        (seq![], pos)
    } else {
        match toks[pos] {
            SpecToken::Close(n) => {
                if n == name {
                    (seq![], pos + 1)
                } else {
                    (seq![], pos)
                }
            },
            _ => match parse_node_at(toks, pos) {
                Some(np) => {
                    if np.1 <= pos || np.1 > toks.len() {
                        (seq![], pos)
                    } else {
                        let rest = parse_children_at(toks, np.1, name);
                        (seq![np.0] + rest.0, rest.1)
                    }
                },
                None => (seq![], pos),
            },
        }
    }
}

/// The top-level nodes read from `pos`; stray close tags are skipped.
pub open spec fn parse_doc_from(toks: Seq<SpecToken>, pos: int) -> Seq<SpecNode>
    decreases toks.len() - pos,
{
    if pos < 0 || pos >= toks.len() {
        seq![]
    } else {
        match parse_node_at(toks, pos) {
            Some(np) => {
                if np.1 <= pos || np.1 > toks.len() {
                    seq![]
                } else {
                    seq![np.0] + parse_doc_from(toks, np.1)
                }
            },
            None => parse_doc_from(toks, pos + 1),
        }
    }
}

/// Reads a token stream into a document tree.
pub struct Parser<'a> {
    tokens: Vec<Token>,
    position: usize,
    source: &'a str,
}

impl<'a> Parser<'a> {
    /// The tokens being read.
    pub closed spec fn toks(&self) -> Seq<SpecToken> {
        view_tokens(self.tokens@)
    }

    /// The index of the next token.
    pub closed spec fn pos(&self) -> int {
        self.position as int
    }

    /// A parser over the tokens of `source`, at the first token.
    pub fn new(source: &'a str) -> (r: Self)
        ensures
            r.toks() == spec_tokenize(source@),
            r.pos() == 0,
    {
        Self { tokens: tokenize(source), position: 0, source }
    }

    /// Reads the rest of the tokens as a document.
    pub fn parse_document(&mut self) -> (r: Node)
        ensures
            view_node(r) == SpecNode::Document(parse_doc_from(old(self).toks(), old(self).pos())),
            final(self).toks() == old(self).toks(),
    {
        let mut children: Vec<Node> = Vec::new();
        let ghost toks = self.toks();
        let ghost p0 = self.pos();
        if self.position > self.tokens.len() {
            proof {
                lemma_view_nodes(children@);
                assert(view_nodes(children@) =~= Seq::<SpecNode>::empty());
            }
            return Node::document(children);
        }
        proof {
            lemma_view_nodes(children@);
            assert(view_nodes(children@) =~= Seq::<SpecNode>::empty());
            assert(parse_doc_from(toks, p0) =~= view_nodes(children@) + parse_doc_from(toks, self.pos()));
        }
        while !self.is_eof()
            invariant
                toks == self.toks(),
                self.position <= self.tokens@.len(),
                parse_doc_from(toks, p0) == view_nodes(children@) + parse_doc_from(
                    toks,
                    self.pos(),
                ),
            decreases self.tokens@.len() - self.position,
        {
            let ghost p = self.pos();
            let ghost old_children = children@;
            match self.parse_node() {
                Some(node) => {
                    children.push(node);
                    proof {
                        lemma_view_nodes_push(old_children, node);
                    }
                },
                None => {
                    assert(self.position < self.tokens.len());
                    self.position = self.position + 1;
                },
            }
            proof {
                assert(parse_doc_from(toks, p0) =~= view_nodes(children@) + parse_doc_from(
                    toks,
                    self.pos(),
                ));
            }
        }
        proof {
            assert(view_nodes(children@) =~= view_nodes(children@) + Seq::<SpecNode>::empty());
        }
        Node::document(children)
    }

    fn parse_node(&mut self) -> (r: Option<Node>)
        requires
            old(self).position <= old(self).tokens@.len(),
        ensures
            final(self).tokens == old(self).tokens,
            final(self).position <= final(self).tokens@.len(),
            match parse_node_at(old(self).toks(), old(self).pos()) {
                Some(np) => r is Some && view_node(r->0) == np.0 && final(self).pos() == np.1
                    && np.1 > old(self).pos(),
                None => r is None && final(self).position == old(self).position,
            },
        decreases old(self).tokens@.len() - old(self).position, 0int,
    {
        if self.position >= self.tokens.len() {
            return None;
        }
        let ghost toks = self.toks();
        assert(toks[self.pos()] == view_token(self.tokens@[self.pos()]));
        match &self.tokens[self.position] {
            Token::Text(text) => {
                let t = text.clone();
                self.position = self.position + 1;
                Some(Node::Text(t))
            },
            Token::OpenTag(tag) => {
                let name = tag.tag_name.clone();
                let attrs = tag.attributes.duplicate();
                let name_chars = chars_of(name.as_str());
                self.position = self.position + 1;
                if is_void_tag(name_chars.as_slice()) {
                    let r = Node::Element(ElementNode { tag_name: name, attributes: attrs, children: Vec::new() });
                    proof {
                        lemma_view_nodes(Seq::<Node>::empty());
                        assert(view_nodes(Seq::<Node>::empty()) =~= Seq::<SpecNode>::empty());
                    }
                    Some(r)
                } else {
                    let children = self.parse_element(&name);
                    Some(Node::Element(ElementNode { tag_name: name, attributes: attrs, children }))
                }
            },
            Token::CloseTag(_) => None,
        }
    }

    fn parse_element(&mut self, tag_name: &String) -> (r: Vec<Node>)
        requires
            old(self).position <= old(self).tokens@.len(),
        ensures
            final(self).tokens == old(self).tokens,
            final(self).position <= final(self).tokens@.len(),
            view_nodes(r@) == parse_children_at(old(self).toks(), old(self).pos(), tag_name@).0,
            final(self).pos() == parse_children_at(old(self).toks(), old(self).pos(), tag_name@).1,
            final(self).pos() >= old(self).pos(),
        decreases old(self).tokens@.len() - old(self).position, 1int,
    {
        let mut children: Vec<Node> = Vec::new();
        let ghost toks = self.toks();
        let ghost p0 = self.pos();
        let ghost tokens0 = self.tokens;
        let name_chars = chars_of(tag_name.as_str());
        proof {
            lemma_view_nodes(children@);
            assert(view_nodes(children@) =~= Seq::<SpecNode>::empty());
        }
        while self.position < self.tokens.len()
            invariant_except_break
                parse_children_at(toks, p0, tag_name@) == (
                    view_nodes(children@) + parse_children_at(toks, self.pos(), tag_name@).0,
                    parse_children_at(toks, self.pos(), tag_name@).1,
                ),
            invariant
                self.tokens == tokens0,
                toks == self.toks(),
                p0 <= self.position <= self.tokens@.len(),
                p0 == old(self).pos(),
                tokens0 == old(self).tokens,
                name_chars@ == tag_name@,
            ensures
                self.tokens == tokens0,
                p0 <= self.position <= self.tokens@.len(),
                parse_children_at(toks, p0, tag_name@) == (view_nodes(children@), self.pos()),
            decreases self.tokens@.len() - self.position,
        {
            let ghost p = self.pos();
            assert(toks[p] == view_token(self.tokens@[p]));
            let is_close = match &self.tokens[self.position] {
                Token::CloseTag(close_tag) => {
                    let c = chars_of(close_tag.as_str());
                    if crate::text::eq_chars(c.as_slice(), name_chars.as_slice()) {
                        self.position = self.position + 1;
                    }
                    true
                },
                _ => false,
            };
            if is_close {
                proof {
                    assert(view_nodes(children@) =~= view_nodes(children@) + Seq::<SpecNode>::empty());
                }
                break;
            }
            let ghost old_children = children@;
            match self.parse_node() {
                Some(node) => {
                    children.push(node);
                    proof {
                        lemma_view_nodes_push(old_children, node);
                        assert(parse_children_at(toks, p0, tag_name@).0 =~= view_nodes(children@)
                            + parse_children_at(toks, self.pos(), tag_name@).0);
                    }
                },
                None => {
                    proof {
                        assert(false);
                    }
                },
            }
        }
        proof {
            if self.position >= self.tokens.len() {
                assert(view_nodes(children@) =~= view_nodes(children@) + Seq::<SpecNode>::empty());
            }
        }
        children
    }

    fn is_eof(&self) -> (r: bool)
        ensures
            r == (self.position >= self.tokens@.len()),
    {
        self.position >= self.tokens.len()
    }
}

/// The names of the HTML void elements, which never have content.
pub open spec fn html_void_name(name: Seq<char>) -> bool {
    name == "area"@ || name == "base"@ || name == "br"@ || name == "col"@ || name == "embed"@
        || name == "hr"@ || name == "img"@ || name == "input"@ || name == "link"@ || name == "meta"@
        || name == "param"@ || name == "source"@ || name == "track"@ || name == "wbr"@
}

/// An open tag of a void element (`area`, `base`, `br`, `col`, `embed`, `hr`,
/// `img`, `input`, `link`, `meta`, `param`, `source`, `track`, `wbr`) is read as
/// an element with no children, and reading goes on right after it: inside an
/// element, the nodes that follow it become its next siblings, and at the top
/// level they become the next nodes of the document.
pub proof fn law_void_elements_are_empty(
    toks: Seq<SpecToken>,
    pos: int,
    name: Seq<char>,
    attrs: Seq<(Seq<char>, Seq<char>)>,
    parent: Seq<char>,
)
    requires
        0 <= pos < toks.len(),
        toks[pos] == SpecToken::Open(name, attrs),
        html_void_name(name),
    ensures
        parse_node_at(toks, pos) == Some((SpecNode::Element(name, attrs, seq![]), pos + 1)),
        parse_children_at(toks, pos, parent) == (
            seq![SpecNode::Element(name, attrs, seq![])] + parse_children_at(toks, pos + 1, parent).0,
            parse_children_at(toks, pos + 1, parent).1,
        ),
        parse_doc_from(toks, pos) == seq![SpecNode::Element(name, attrs, seq![])] + parse_doc_from(toks, pos + 1),
{
    assert(is_void(name));
}

/// An open tag of any other element is read with the nodes that follow it as
/// its children, up to its close tag.
pub proof fn law_other_elements_take_children(
    toks: Seq<SpecToken>,
    pos: int,
    name: Seq<char>,
    attrs: Seq<(Seq<char>, Seq<char>)>,
)
    requires
        0 <= pos < toks.len(),
        toks[pos] == SpecToken::Open(name, attrs),
        !html_void_name(name),
    ensures
        parse_node_at(toks, pos) == Some(
            (
                SpecNode::Element(name, attrs, parse_children_at(toks, pos + 1, name).0),
                parse_children_at(toks, pos + 1, name).1,
            ),
        ),
{
    assert(!is_void(name));
}

} // verus!
