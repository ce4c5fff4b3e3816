//! Key-value documents: nested tables of named strings, written as quoted or
//! bare words and blocks in braces.
//!
//! A document is read in two steps. The tokenizer of the crate `steamy_vdf`
//! splits the bytes into tokens; it knows the quoting and the escapes of the
//! format, and it knows no comments. The tokens are then built into a tree
//! here. The tree keeps the entries of each table in the order of the
//! document, and a document whose braces do not match is refused.

use vstd::prelude::*;
use vstd::slice::slice_subrange;
use crate::text::{chars_of, str_is};

verus! {

/// One lexical token of a key-value document.
#[derive(Debug, PartialEq, Eq)]
pub enum Token {
    /// An opening brace.
    GroupStart,
    /// A closing brace.
    GroupEnd,
    /// A bare or quoted string, with its escapes resolved.
    Item(String),
    /// A string that begins with `#`, given without the `#`.
    Statement(String),
}

/// The mathematical model of a `Token`.
pub enum TokenView {
    GroupStart,
    GroupEnd,
    Item(Seq<char>),
    Statement(Seq<char>),
}

impl View for Token {
    type V = TokenView;

    open spec fn view(&self) -> TokenView {
        match self {
            Token::GroupStart => TokenView::GroupStart,
            Token::GroupEnd => TokenView::GroupEnd,
            Token::Item(s) => TokenView::Item(s@),
            Token::Statement(s) => TokenView::Statement(s@),
        }
    }
}

/// The models of a sequence of tokens.
pub open spec fn tokens_view(tokens: Seq<Token>) -> Seq<TokenView> {
    tokens.map_values(|t: Token| t@)
}

/// What the tokenizer makes of the front of an input.
enum Scan {
    /// A token was read; `rest` bytes of the input lie behind it and the
    /// white space that follows it.
    Token { token: Token, rest: usize },
    /// The input ends before a token is complete.
    Incomplete,
    /// The input does not start with a token.
    Invalid,
}

/// The mathematical model of a `Scan`.
pub enum ScanView {
    Token { token: TokenView, rest: nat },
    Incomplete,
    Invalid,
}

impl View for Scan {
    type V = ScanView;

    closed spec fn view(&self) -> ScanView {
        match self {
            Scan::Token { token, rest } => ScanView::Token { token: token@, rest: *rest as nat },
            Scan::Incomplete => ScanView::Incomplete,
            Scan::Invalid => ScanView::Invalid,
        }
    }
}

/// Why a document is not a key-value document.
#[derive(Debug, Clone, Copy, PartialEq, Eq)]
pub enum ParseError {
    /// The input holds something that is no token, such as a quoted string
    /// with a bad escape or with bytes that are not UTF-8.
    InvalidToken,
    /// The input ends inside a quoted string.
    UnterminatedString,
    /// The input ends inside a block.
    UnterminatedBlock,
    /// A brace stands where none may: a closing brace at top level or in
    /// place of a value, or an opening brace in place of a key.
    UnexpectedToken,
    /// The input ends after a key.
    MissingValue,
}

/// What `steamy_vdf::parser::next` makes of `input`: the first token with the
/// white space around it and the number of bytes that are left behind it, or
/// that the input is incomplete, or that it starts with no token.
pub uninterp spec fn vdf_next(input: Seq<u8>) -> ScanView;

/// Calls `steamy_vdf::parser::next`, the tokenizer of the VDF format, on
/// `input`.
///
/// Not verified. The contract claims one thing of the tokenizer: that its
/// outcome is a function of the bytes it is handed, which `vdf_next` names.
/// Nothing is claimed of which bytes make which token, nor of how much of the
/// input a token takes.
#[verifier::external_body]
fn next_token(input: &[u8]) -> (r: Scan)
    ensures
        r@ == vdf_next(input@),
{
    let found = steamy_vdf::parser::next(input);
    if found.is_incomplete() {
        return Scan::Incomplete;
    }
    if found.is_err() {
        return Scan::Invalid;
    }
    let (rest, token) = found.unwrap();
    let token = match token {
        steamy_vdf::parser::Token::GroupStart => Token::GroupStart,
        steamy_vdf::parser::Token::GroupEnd => Token::GroupEnd,
        steamy_vdf::parser::Token::Item(s) => Token::Item(s.into_owned()),
        steamy_vdf::parser::Token::Statement(s) => Token::Statement(s.into_owned()),
    };
    Scan::Token { token, rest: rest.len() }
}

/// White space between tokens: space, tab, line feed, carriage return.
pub open spec fn is_space(b: u8) -> bool {
    b == 0x20 || b == 0x09 || b == 0x0a || b == 0x0d
}

/// Whether `input` holds nothing but white space.
pub open spec fn is_blank(input: Seq<u8>) -> bool {
    forall|i: int| 0 <= i < input.len() ==> is_space(#[trigger] input[i])
}

/// `tokens` in front of what `rest` holds, or the error of `rest`.
pub open spec fn prepend_tokens(
    tokens: Seq<TokenView>,
    rest: Result<Seq<TokenView>, ParseError>,
) -> Result<Seq<TokenView>, ParseError> {
    match rest {
        Ok(more) => Ok(tokens + more),
        Err(e) => Err(e),
    }
}

/// The tokens of a document, or the first reason why it has none.
///
/// The tokenizer is asked for one token after the other, each time on what
/// the last one left. Where it wants more input than there is, the document
/// has ended: cleanly if only white space is left, inside a quoted string
/// otherwise.
pub open spec fn document_tokens(input: Seq<u8>) -> Result<Seq<TokenView>, ParseError>
    decreases input.len(),
{
    match vdf_next(input) {
        ScanView::Incomplete => if is_blank(input) {
            Ok(Seq::empty())
        } else {
            Err(ParseError::UnterminatedString)
        },
        ScanView::Invalid => Err(ParseError::InvalidToken),
        ScanView::Token { token, rest } => if rest >= input.len() {
            Err(ParseError::InvalidToken)
        } else {
            prepend_tokens(
                seq![token],
                document_tokens(input.subrange(input.len() - rest, input.len() as int)),
            )
        },
    }
}

/// Whether `input` holds nothing but white space.
fn blank(input: &[u8]) -> (r: bool)
    ensures
        r == is_blank(input@),
{
    let mut i: usize = 0;
    while i < input.len()
        invariant
            i <= input.len(),
            forall|j: int| 0 <= j < i ==> is_space(#[trigger] input@[j]),
        decreases input.len() - i,
    {
        let b = input[i];
        if !(b == 0x20 || b == 0x09 || b == 0x0a || b == 0x0d) {
            return false;
        }
        i += 1;
    }
    true
}

/// Splits a document into its tokens.
pub fn tokenize(input: &[u8]) -> (r: Result<Vec<Token>, ParseError>)
    ensures
        match r {
            Ok(tokens) => document_tokens(input@) == Ok::<Seq<TokenView>, ParseError>(
                tokens_view(tokens@),
            ),
            Err(e) => document_tokens(input@) == Err::<Seq<TokenView>, ParseError>(e),
        },
{
    let len = input.len();
    let mut tokens: Vec<Token> = Vec::new();
    let mut pos: usize = 0;
    proof {
        assert(input@.subrange(0, len as int) == input@);
        if let Ok(all) = document_tokens(input@) {
            assert(tokens_view(tokens@) + all == all);
        }
    }
    loop
        invariant
            len == input.len(),
            pos <= len,
            document_tokens(input@) == prepend_tokens(
                tokens_view(tokens@),
                document_tokens(input@.subrange(pos as int, len as int)),
            ),
        decreases len - pos,
    {
        let tail = slice_subrange(input, pos, len);
        match next_token(tail) {
            Scan::Incomplete => {
                if blank(tail) {
                    assert(tokens_view(tokens@) + Seq::<TokenView>::empty() == tokens_view(
                        tokens@,
                    ));
                    return Ok(tokens);
                } else {
                    return Err(ParseError::UnterminatedString);
                }
            },
            Scan::Invalid => {
                return Err(ParseError::InvalidToken);
            },
            Scan::Token { token, rest } => {
                if rest >= len - pos {
                    return Err(ParseError::InvalidToken);
                }
                proof {
                    let before = tokens_view(tokens@);
                    let after = tokens_view(tokens@.push(token));
                    assert(after == before + seq![token@]);
                    assert(tail@.subrange(tail@.len() - rest, tail@.len() as int)
                        == input@.subrange(len - rest, len as int));
                    let more = document_tokens(input@.subrange(len - rest, len as int));
                    if let Ok(ts) = more {
                        assert(before + (seq![token@] + ts) == after + ts);
                    }
                }
                tokens.push(token);
                pos = len - rest;
            },
        }
    }
}

/// A node of a parsed key-value document.
#[derive(Debug, PartialEq, Eq)]
pub enum KeyValueNode {
    /// A plain string value.
    Value(String),
    /// A table: its entries in document order. Names may repeat.
    Table(Vec<(String, KeyValueNode)>),
}

/// The mathematical model of a `KeyValueNode`.
pub enum NodeView {
    Value(Seq<char>),
    Table(Seq<(Seq<char>, NodeView)>),
}

/// The models of a table's entries.
pub open spec fn entries_view(entries: Seq<(String, KeyValueNode)>) -> Seq<(Seq<char>, NodeView)>
    decreases entries,
{
    Seq::new(
        entries.len(),
        |i: int|
            if 0 <= i < entries.len() {
                (entries[i].0@, node_view(entries[i].1))
            } else {
                (Seq::empty(), NodeView::Table(Seq::empty()))
            },
    )
}

/// The model of a node.
pub open spec fn node_view(node: KeyValueNode) -> NodeView
    decreases node,
{
    match node {
        KeyValueNode::Value(s) => NodeView::Value(s@),
        KeyValueNode::Table(entries) => NodeView::Table(entries_view(entries@)),
    }
}

impl View for KeyValueNode {
    type V = NodeView;

    open spec fn view(&self) -> NodeView {
        node_view(*self)
    }
}

impl TokenView {
    /// The string of an item or a statement.
    pub open spec fn text(self) -> Option<Seq<char>> {
        match self {
            TokenView::Item(s) => Some(s),
            TokenView::Statement(s) => Some(s),
            _ => None,
        }
    }
}

impl Token {
    /// The string of an item or a statement.
    pub fn text(&self) -> (r: Option<&String>)
        ensures
            match r {
                Some(s) => self@.text() == Some(s@),
                None => self@.text() is None,
            },
    {
        match self {
            Token::Item(s) => Some(s),
            Token::Statement(s) => Some(s),
            _ => None,
        }
    }
}

/// The entries of a table, and the tokens behind the table.
pub struct TableView {
    pub entries: Seq<(Seq<char>, NodeView)>,
    pub rest: Seq<TokenView>,
}

/// The table `tail` with `entries` in front of its own, or the error of `tail`.
pub open spec fn with_entries(
    entries: Seq<(Seq<char>, NodeView)>,
    tail: Result<TableView, ParseError>,
) -> Result<TableView, ParseError> {
    match tail {
        Ok(t) => Ok(TableView { entries: entries + t.entries, rest: t.rest }),
        Err(e) => Err(e),
    }
}

/// The table that starts with the first of `tokens`.
///
/// A table is a run of entries. An entry is a key, which is an item or a
/// statement, and then either a string or a block in braces, which is a table
/// again. A nested table ends at its closing brace, the outermost one where
/// the tokens end. An entry whose key is a statement and whose value is a
/// string is a directive and leaves no entry; a statement in place of a value
/// counts as a string.
pub open spec fn table_of(tokens: Seq<TokenView>, nested: bool) -> Result<TableView, ParseError>
    decreases tokens.len(),
{
    if tokens.len() == 0 {
        if nested {
            Err(ParseError::UnterminatedBlock)
        } else {
            Ok(TableView { entries: Seq::empty(), rest: tokens })
        }
    } else {
        match tokens[0].text() {
            None => if tokens[0] is GroupEnd && nested {
                Ok(TableView { entries: Seq::empty(), rest: tokens.skip(1) })
            } else {
                Err(ParseError::UnexpectedToken)
            },
            Some(key) => if tokens.len() == 1 {
                Err(ParseError::MissingValue)
            } else {
                match tokens[1] {
                    TokenView::GroupEnd => Err(ParseError::UnexpectedToken),
                    TokenView::GroupStart => match table_of(tokens.skip(2), true) {
                        Err(e) => Err(e),
                        Ok(child) => if child.rest.len() >= tokens.len() {
                            // Never so: what lies behind a table is shorter than what it began with.
                            Err(ParseError::UnexpectedToken)
                        } else {
                            with_entries(
                                seq![(key, NodeView::Table(child.entries))],
                                table_of(child.rest, nested),
                            )
                        },
                    },
                    TokenView::Item(value) | TokenView::Statement(value) => with_entries(
                        if tokens[0] is Statement {
                            Seq::empty()
                        } else {
                            seq![(key, NodeView::Value(value))]
                        },
                        table_of(tokens.skip(2), nested),
                    ),
                }
            },
        }
    }
}

/// The document that a sequence of tokens writes: its outermost table.
pub open spec fn document_tree(tokens: Seq<TokenView>) -> Result<NodeView, ParseError> {
    match table_of(tokens, false) {
        Ok(t) => Ok(NodeView::Table(t.entries)),
        Err(e) => Err(e),
    }
}

/// The document that `input` holds.
pub open spec fn document_of(input: Seq<u8>) -> Result<NodeView, ParseError> {
    match document_tokens(input) {
        Ok(tokens) => document_tree(tokens),
        Err(e) => Err(e),
    }
}

/// What lies behind a table is part of what the table began with, and is
/// shorter where the table is nested.
pub proof fn lemma_table_rest(tokens: Seq<TokenView>, nested: bool)
    ensures
        match table_of(tokens, nested) {
            Ok(t) => t.rest.len() <= tokens.len() && (nested ==> t.rest.len() < tokens.len()) && (
            !nested ==> t.rest.len() == 0),
            Err(_) => true,
        },
    decreases tokens.len(),
{
    if tokens.len() >= 2 && tokens[0].text() is Some {
        match tokens[1] {
            TokenView::GroupEnd => {},
            TokenView::GroupStart => {
                lemma_table_rest(tokens.skip(2), true);
                if let Ok(child) = table_of(tokens.skip(2), true) {
                    lemma_table_rest(child.rest, nested);
                }
            },
            _ => {
                lemma_table_rest(tokens.skip(2), nested);
            },
        }
    }
}

proof fn lemma_entries_view_push(entries: Seq<(String, KeyValueNode)>, key: String, node: KeyValueNode)
    ensures
        entries_view(entries.push((key, node))) == entries_view(entries) + seq![(key@, node@)],
{
    assert(entries_view(entries.push((key, node))) =~= entries_view(entries) + seq![
        (key@, node@),
    ]);
}

/// Reads the table that starts at `tokens[start]`. Gives its entries and the
/// index of the first token behind it.
fn parse_table(tokens: &Vec<Token>, start: usize, nested: bool) -> (r: Result<
    (Vec<(String, KeyValueNode)>, usize),
    ParseError,
>)
    requires
        start <= tokens.len(),
    ensures
        match r {
            Ok((entries, next)) => start <= next <= tokens.len() && table_of(
                tokens_view(tokens@).skip(start as int),
                nested,
            ) == Ok::<TableView, ParseError>(
                TableView {
                    entries: entries_view(entries@),
                    rest: tokens_view(tokens@).skip(next as int),
                },
            ),
            Err(e) => table_of(tokens_view(tokens@).skip(start as int), nested) == Err::<
                TableView,
                ParseError,
            >(e),
        },
    decreases tokens.len() - start,
{
    let ghost all = tokens_view(tokens@);
    let len = tokens.len();
    let mut entries: Vec<(String, KeyValueNode)> = Vec::new();
    let mut pos: usize = start;
    proof {
        if let Ok(t) = table_of(all.skip(start as int), nested) {
            assert(entries_view(entries@) + t.entries == t.entries);
        }
    }
    loop
        invariant
            all == tokens_view(tokens@),
            len == tokens.len(),
            start <= pos <= len,
            table_of(all.skip(start as int), nested) == with_entries(
                entries_view(entries@),
                table_of(all.skip(pos as int), nested),
            ),
        decreases len - pos,
    {
        let ghost here = all.skip(pos as int);
        let ghost before = entries_view(entries@);
        if pos >= len {
            if nested {
                return Err(ParseError::UnterminatedBlock);
            }
            proof {
                assert(before + Seq::<(Seq<char>, NodeView)>::empty() == before);
            }
            return Ok((entries, pos));
        }
        assert(here[0] == tokens@[pos as int]@);
        let key = match tokens[pos].text() {
            Some(key) => key,
            None => {
                match &tokens[pos] {
                    Token::GroupEnd => {
                        if nested {
                            proof {
                                assert(before + Seq::<(Seq<char>, NodeView)>::empty() == before);
                                assert(here.skip(1) == all.skip(pos + 1));
                            }
                            return Ok((entries, pos + 1));
                        }
                        return Err(ParseError::UnexpectedToken);
                    },
                    _ => {
                        return Err(ParseError::UnexpectedToken);
                    },
                }
            },
        };
        if len - pos < 2 {
            return Err(ParseError::MissingValue);
        }
        assert(here[1] == tokens@[pos + 1]@);
        assert(here.skip(2) == all.skip(pos + 2));
        match &tokens[pos + 1] {
            Token::GroupEnd => {
                return Err(ParseError::UnexpectedToken);
            },
            Token::GroupStart => {
                let (children, next) = match parse_table(tokens, pos + 2, true) {
                    Ok(found) => found,
                    Err(e) => {
                        return Err(e);
                    },
                };
                let name = key.clone();
                let node = KeyValueNode::Table(children);
                proof {
                    lemma_entries_view_push(entries@, name, node);
                    lemma_table_rest(all.skip(pos + 2), true);
                    if let Ok(t) = table_of(all.skip(next as int), nested) {
                        assert((before + seq![(name@, node@)]) + t.entries == before + (seq![
                            (name@, node@),
                        ] + t.entries));
                    }
                }
                entries.push((name, node));
                pos = next;
            },
            Token::Item(value) | Token::Statement(value) => {
                match &tokens[pos] {
                    Token::Statement(_) => {
                        proof {
                            if let Ok(t) = table_of(all.skip(pos + 2), nested) {
                                assert(Seq::<(Seq<char>, NodeView)>::empty() + t.entries
                                    == t.entries);
                            }
                        }
                    },
                    _ => {
                        let name = key.clone();
                        let node = KeyValueNode::Value(value.clone());
                        proof {
                            lemma_entries_view_push(entries@, name, node);
                            if let Ok(t) = table_of(all.skip(pos + 2), nested) {
                                assert((before + seq![(name@, node@)]) + t.entries == before + (
                                seq![(name@, node@)] + t.entries));
                            }
                        }
                        entries.push((name, node));
                    },
                }
                pos = pos + 2;
            },
        }
    }
}

/// Builds the document that a sequence of tokens writes.
pub fn parse_tokens(tokens: &Vec<Token>) -> (r: Result<KeyValueNode, ParseError>)
    ensures
        match r {
            Ok(root) => document_tree(tokens_view(tokens@)) == Ok::<NodeView, ParseError>(root@),
            Err(e) => document_tree(tokens_view(tokens@)) == Err::<NodeView, ParseError>(e),
        },
        r matches Ok(root) ==> root is Table,
{
    assert(tokens_view(tokens@).skip(0) == tokens_view(tokens@));
    match parse_table(tokens, 0, false) {
        Ok((entries, _)) => Ok(KeyValueNode::Table(entries)),
        Err(e) => Err(e),
    }
}

/// Parses a key-value document.
pub fn parse(input: &[u8]) -> (r: Result<KeyValueNode, ParseError>)
    ensures
        match r {
            Ok(root) => document_of(input@) == Ok::<NodeView, ParseError>(root@),
            Err(e) => document_of(input@) == Err::<NodeView, ParseError>(e),
        },
        r matches Ok(root) ==> root is Table,
{
    match tokenize(input) {
        Ok(tokens) => parse_tokens(&tokens),
        Err(e) => Err(e),
    }
}

/// The value of the first entry named `name`.
pub open spec fn first_named(entries: Seq<(Seq<char>, NodeView)>, name: Seq<char>) -> Option<
    NodeView,
>
    decreases entries.len(),
{
    if entries.len() == 0 {
        None
    } else if entries[0].0 == name {
        Some(entries[0].1)
    } else {
        first_named(entries.skip(1), name)
    }
}

/// The length of the first segment of a dotted path: the number of
/// characters in front of its first dot, or of all of them.
pub open spec fn segment_len(path: Seq<char>) -> nat
    decreases path.len(),
{
    if path.len() == 0 || path[0] == '.' {
        0
    } else {
        1 + segment_len(path.skip(1))
    }
}

impl NodeView {
    /// The value of the first entry of this table that is named `name`, letter
    /// for letter. A string value has no entries.
    pub open spec fn get(self, name: Seq<char>) -> Option<NodeView> {
        match self {
            NodeView::Table(entries) => first_named(entries, name),
            NodeView::Value(_) => None,
        }
    }

    /// The node that a dotted path leads to: `get` for each of its segments
    /// in turn.
    pub open spec fn lookup(self, path: Seq<char>) -> Option<NodeView>
        decreases path.len(),
    {
        let n = segment_len(path);
        if n >= path.len() {
            self.get(path)
        } else {
            match self.get(path.take(n as int)) {
                Some(child) => child.lookup(path.skip(n as int + 1)),
                None => None,
            }
        }
    }
}

/// A run of characters without a dot, followed by a dot or by nothing, is
/// the first segment.
proof fn lemma_segment_len(path: Seq<char>, n: int)
    requires
        0 <= n <= path.len(),
        forall|i: int| 0 <= i < n ==> path[i] != '.',
        n == path.len() || path[n] == '.',
    ensures
        segment_len(path) == n,
    decreases n,
{
    if n > 0 {
        lemma_segment_len(path.skip(1), n - 1);
    }
}

impl KeyValueNode {
    /// The value of the first entry named by the characters `name`.
    fn child(&self, name: &[char]) -> (r: Option<&KeyValueNode>)
        ensures
            match r {
                Some(node) => self@.get(name@) == Some(node@),
                None => self@.get(name@) is None,
            },
    {
        match self {
            KeyValueNode::Value(_) => None,
            KeyValueNode::Table(entries) => {
                let ghost all = entries_view(entries@);
                let mut i: usize = 0;
                assert(all.skip(0) == all);
                assert(self@ == NodeView::Table(all));
                while i < entries.len()
                    invariant
                        i <= entries.len(),
                        all == entries_view(entries@),
                        self@ == NodeView::Table(all),
                        first_named(all, name@) == first_named(all.skip(i as int), name@),
                    decreases entries.len() - i,
                {
                    assert(all.skip(i as int).skip(1) == all.skip(i + 1));
                    assert(all.skip(i as int)[0] == (entries@[i as int].0@, entries@[i as int].1@));
                    if str_is(entries[i].0.as_str(), name) {
                        return Some(&entries[i].1);
                    }
                    i += 1;
                }
                None
            },
        }
    }

    /// The value of the first entry of this table that is named `name`.
    /// Names are compared letter for letter, with no folding of case.
    pub fn get(&self, name: &str) -> (r: Option<&KeyValueNode>)
        ensures
            match r {
                Some(node) => self@.get(name@) == Some(node@),
                None => self@.get(name@) is None,
            },
    {
        let chars = chars_of(name);
        self.child(chars.as_slice())
    }

    /// Follows a dotted path such as `AppState.appid` from this node.
    pub fn lookup(&self, path: &str) -> (r: Option<&KeyValueNode>)
        ensures
            match r {
                Some(node) => self@.lookup(path@) == Some(node@),
                None => self@.lookup(path@) is None,
            },
    {
        let chars = chars_of(path);
        let len = chars.len();
        let mut node = self;
        let mut start: usize = 0;
        assert(path@.skip(0) == path@);
        loop
            invariant
                chars@ == path@,
                len == chars.len(),
                start <= len,
                self@.lookup(path@) == node@.lookup(path@.skip(start as int)),
            decreases len - start,
        {
            let ghost tail = path@.skip(start as int);
            let mut end: usize = start;
            while end < len && chars[end] != '.'
                invariant
                    chars@ == path@,
                    len == chars.len(),
                    start <= end <= len,
                    forall|i: int| start <= i < end ==> chars@[i] != '.',
                decreases len - end,
            {
                end += 1;
            }
            proof {
                lemma_segment_len(tail, end - start);
            }
            let segment = slice_subrange(chars.as_slice(), start, end);
            assert(segment@ == tail.take(end - start));
            if end == len {
                assert(segment@ == tail);
                return node.child(segment);
            }
            match node.child(segment) {
                Some(found) => {
                    assert(tail.skip(end - start + 1) == path@.skip(end + 1));
                    node = found;
                    start = end + 1;
                },
                None => {
                    return None;
                },
            }
        }
    }

    /// The string of a plain value.
    pub fn as_str(&self) -> (r: Option<&str>)
        ensures
            match r {
                Some(s) => self@ == NodeView::Value(s@),
                None => self@ is Table,
            },
    {
        match self {
            KeyValueNode::Value(s) => Some(s.as_str()),
            KeyValueNode::Table(_) => None,
        }
    }
}

/// The tokens that write a node in the place of a value: one item for a
/// string, a block in braces for a table.
pub open spec fn node_tokens(node: NodeView) -> Seq<TokenView>
    decreases node,
{
    match node {
        NodeView::Value(value) => seq![TokenView::Item(value)],
        NodeView::Table(entries) => seq![TokenView::GroupStart] + entries_tokens(entries) + seq![
            TokenView::GroupEnd,
        ],
    }
}

/// The tokens that write the entries of a table: for each entry its name as
/// an item, then its value.
pub open spec fn entries_tokens(entries: Seq<(Seq<char>, NodeView)>) -> Seq<TokenView>
    decreases entries,
{
    if entries.len() == 0 {
        Seq::empty()
    } else {
        entries_tokens(entries.drop_last()) + seq![TokenView::Item(entries.last().0)]
            + node_tokens(entries.last().1)
    }
}

/// The tokens that write a document: the entries of its outermost table.
pub open spec fn written(root: NodeView) -> Seq<TokenView> {
    match root {
        NodeView::Table(entries) => entries_tokens(entries),
        NodeView::Value(value) => seq![TokenView::Item(value)],
    }
}

/// The tokens of a table begin with those of its first entry.
proof fn lemma_entries_tokens_first(entries: Seq<(Seq<char>, NodeView)>)
    requires
        entries.len() > 0,
    ensures
        entries_tokens(entries) == seq![TokenView::Item(entries[0].0)] + node_tokens(entries[0].1)
            + entries_tokens(entries.skip(1)),
    decreases entries.len(),
{
    let first = seq![TokenView::Item(entries[0].0)] + node_tokens(entries[0].1);
    if entries.len() == 1 {
        assert(entries.drop_last() == Seq::<(Seq<char>, NodeView)>::empty());
        assert(entries.skip(1) == Seq::<(Seq<char>, NodeView)>::empty());
        assert(entries_tokens(entries.drop_last()) == Seq::<TokenView>::empty());
        assert(entries.last() == entries[0]);
        assert(entries_tokens(entries) =~= first);
        assert(entries_tokens(entries.skip(1)) == Seq::<TokenView>::empty());
        assert(first + Seq::<TokenView>::empty() =~= first);
    } else {
        let last = seq![TokenView::Item(entries.last().0)] + node_tokens(entries.last().1);
        lemma_entries_tokens_first(entries.drop_last());
        assert(entries.drop_last().skip(1) == entries.skip(1).drop_last());
        assert(entries.skip(1).last() == entries.last());
        assert(entries.drop_last()[0] == entries[0]);
        assert(entries_tokens(entries) == first + entries_tokens(entries.skip(1).drop_last())
            + last);
        assert(entries_tokens(entries.skip(1)) == entries_tokens(entries.skip(1).drop_last())
            + last);
        assert(first + entries_tokens(entries.skip(1).drop_last()) + last == first + (
        entries_tokens(entries.skip(1).drop_last()) + last));
    }
}

/// Reading the tokens of a table's entries gives the entries, and leaves
/// what stood behind them: behind the closing brace where the table is
/// nested.
pub proof fn lemma_read_entries_tokens(
    entries: Seq<(Seq<char>, NodeView)>,
    rest: Seq<TokenView>,
    nested: bool,
)
    requires
        nested ==> rest.len() > 0 && rest[0] is GroupEnd,
        !nested ==> rest.len() == 0,
    ensures
        table_of(entries_tokens(entries) + rest, nested) == Ok::<TableView, ParseError>(
            TableView {
                entries,
                rest: if nested {
                    rest.skip(1)
                } else {
                    rest
                },
            },
        ),
    decreases entries,
{
    let tokens = entries_tokens(entries) + rest;
    let none = Seq::<(Seq<char>, NodeView)>::empty();
    if entries.len() == 0 {
        assert(tokens == rest);
        assert(entries == none);
    } else {
        lemma_entries_tokens_first(entries);
        let key = entries[0].0;
        let others = entries.skip(1);
        let behind = entries_tokens(others) + rest;
        assert(tokens[0] == TokenView::Item(key));
        assert(seq![entries[0]] + others == entries);
        match entries[0].1 {
            NodeView::Value(value) => {
                assert(tokens[1] == TokenView::Item(value));
                assert(tokens.skip(2) == behind);
                lemma_read_entries_tokens(others, rest, nested);
            },
            NodeView::Table(children) => {
                let inner = seq![TokenView::GroupEnd] + behind;
                assert(tokens[1] == TokenView::GroupStart);
                assert(tokens.skip(2) == entries_tokens(children) + inner);
                lemma_read_entries_tokens(children, inner, true);
                assert(inner.skip(1) == behind);
                lemma_read_entries_tokens(others, rest, nested);
            },
        }
    }
}

/// A document that is written as tokens and read back is the same document.
pub proof fn lemma_written_document_reads_back(root: NodeView)
    requires
        root is Table,
    ensures
        document_tree(written(root)) == Ok::<NodeView, ParseError>(root),
{
    let entries = root->Table_0;
    lemma_read_entries_tokens(entries, Seq::empty(), false);
    assert(entries_tokens(entries) + Seq::<TokenView>::empty() == entries_tokens(entries));
}

/// A document that was read from tokens, written as tokens and read again
/// is the same document: the shape of its tables and the strings in them
/// are kept, though the tokens need not be.
pub proof fn lemma_read_document_is_kept(tokens: Seq<TokenView>)
    ensures
        document_tree(tokens) matches Ok(root) ==> document_tree(written(root)) == Ok::<
            NodeView,
            ParseError,
        >(root),
{
    if let Ok(root) = document_tree(tokens) {
        lemma_written_document_reads_back(root);
    }
}

impl KeyValueNode {
    /// Appends the tokens that write this node in the place of a value.
    fn write_value(&self, out: &mut Vec<Token>)
        ensures
            tokens_view(final(out)@) == tokens_view(old(out)@) + node_tokens(self@),
        decreases self,
    {
        match self {
            KeyValueNode::Value(value) => {
                let token = Token::Item(value.clone());
                assert(tokens_view(out@.push(token)) == tokens_view(out@) + seq![token@]);
                out.push(token);
            },
            KeyValueNode::Table(entries) => {
                assert(tokens_view(out@.push(Token::GroupStart)) == tokens_view(out@) + seq![
                    TokenView::GroupStart,
                ]);
                out.push(Token::GroupStart);
                write_entries(entries, out);
                assert(tokens_view(out@.push(Token::GroupEnd)) == tokens_view(out@) + seq![
                    TokenView::GroupEnd,
                ]);
                out.push(Token::GroupEnd);
                assert(tokens_view(out@) == tokens_view(old(out)@) + (seq![TokenView::GroupStart]
                    + entries_tokens(entries_view(entries@)) + seq![TokenView::GroupEnd]));
            },
        }
    }

    /// The tokens that write this document. Read back, they give the
    /// document again.
    pub fn to_tokens(&self) -> (r: Vec<Token>)
        ensures
            tokens_view(r@) == written(self@),
    {
        let mut out: Vec<Token> = Vec::new();
        assert(tokens_view(out@) == Seq::<TokenView>::empty());
        match self {
            KeyValueNode::Value(_) => {
                self.write_value(&mut out);
                assert(Seq::<TokenView>::empty() + node_tokens(self@) == node_tokens(self@));
            },
            KeyValueNode::Table(entries) => {
                write_entries(entries, &mut out);
                assert(Seq::<TokenView>::empty() + entries_tokens(entries_view(entries@))
                    == entries_tokens(entries_view(entries@)));
            },
        }
        out
    }
}

/// Appends the tokens that write the entries of a table.
fn write_entries(entries: &Vec<(String, KeyValueNode)>, out: &mut Vec<Token>)
    ensures
        tokens_view(final(out)@) == tokens_view(old(out)@) + entries_tokens(entries_view(entries@)),
    decreases entries,
{
    let ghost all = entries_view(entries@);
    let mut i: usize = 0;
    assert(all.take(0) == Seq::<(Seq<char>, NodeView)>::empty());
    assert(tokens_view(out@) + Seq::<TokenView>::empty() == tokens_view(out@));
    while i < entries.len()
        invariant
            i <= entries.len(),
            all == entries_view(entries@),
            tokens_view(out@) == tokens_view(old(out)@) + entries_tokens(all.take(i as int)),
        decreases entries.len() - i,
    {
        let ghost before = tokens_view(out@);
        let name = Token::Item(entries[i].0.clone());
        assert(tokens_view(out@.push(name)) == tokens_view(out@) + seq![name@]);
        out.push(name);
        entries[i].1.write_value(out);
        proof {
            let done = all.take(i + 1);
            assert(done.drop_last() == all.take(i as int));
            assert(done.last() == (entries@[i as int].0@, entries@[i as int].1@));
            assert(tokens_view(out@) == tokens_view(old(out)@) + (entries_tokens(
                all.take(i as int),
            ) + seq![name@] + node_tokens(entries@[i as int].1@)));
        }
        i += 1;
    }
    assert(all.take(i as int) == all);
}

} // verus!
