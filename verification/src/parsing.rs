//! Reading a tree from bracket notation.
//!
//! The text is scanned once for its structural tokens. The first token must
//! be an opening token: it opens the root. Every later opening token starts a
//! node below the innermost open node, and every closing token closes the
//! innermost open node. The label of a node is the text between its opening
//! token and the token that follows it. [`parse_spec`] says what is read from
//! a text, and the parser is proved to return exactly that.
use crate::error::ParseError;
use crate::label::{Label, StringLabel};
use crate::node::{trees_of, Node, Tree};
use crate::scan::{as_ints, Tokens};
use vstd::prelude::*;
use vstd::slice::slice_subrange;
use vstd::utf8::{
    decode_utf8, encode_utf8, encode_utf8_valid_utf8, is_char_boundary_iff_not_is_continuation_byte,
    pop_first_scalar, valid_utf8, valid_utf8_split,
};

verus! {

/// The byte that opens a node unless another is chosen: `{`.
pub const TOKEN_START: u8 = 0x7b;

/// The byte that closes a node unless another is chosen: `}`.
pub const TOKEN_END: u8 = 0x7d;

/// The escape byte unless another is chosen: `\`.
pub const ESCAPE_CHAR: u8 = 0x5c;

/// A tree whose labels are text.
pub type TextTree = Tree<Seq<char>>;

/// What a parser returned, with the tree in place of the root node.
pub open spec fn outcome<L: View>(parsed: Result<Node<L>, ParseError>) -> Result<
    Tree<L::V>,
    ParseError,
> {
    match parsed {
        Ok(root) => Ok(root@),
        Err(error) => Err(error),
    }
}

/// The bytes of the label that the token `positions[k]` starts: those after
/// it and before the next token.
pub open spec fn label_bytes(text: Seq<u8>, positions: Seq<int>, k: int) -> Seq<u8> {
    text.subrange(positions[k] + 1, positions[k + 1])
}

/// The open nodes after the innermost is closed: it becomes the last child
/// of the node that was opened before it.
pub open spec fn close_innermost(open: Seq<TextTree>) -> Seq<TextTree>
    recommends
        open.len() >= 2,
{
    open.subrange(0, open.len() - 2).push(
        open[open.len() - 2].with_child(open[open.len() - 1]),
    )
}

/// The root once every open node is closed, innermost first.
pub open spec fn close_all(open: Seq<TextTree>) -> TextTree
    recommends
        open.len() >= 1,
    decreases open.len(),
{
    if open.len() <= 1 {
        open[0]
    } else {
        close_all(close_innermost(open))
    }
}

/// The result of reading the tokens from `positions[k]` on, where `open`
/// holds the nodes that are open at that point, outermost first, each with
/// the children it has so far.
///
/// An opening token must have a token after it, which ends its label; the
/// label must be valid UTF-8; and a node must be open to take the new node
/// as a child. The three are tested in this order. A closing token needs an
/// open node. When the root is closed, it is the result if no token follows.
/// When the tokens end while nodes are open, these are closed as if the
/// missing closing tokens stood at the end.
pub open spec fn build(
    tokens: Tokens,
    text: Seq<u8>,
    positions: Seq<int>,
    k: int,
    open: Seq<TextTree>,
) -> Result<TextTree, ParseError>
    decreases positions.len() - k,
{
    if k >= positions.len() {
        Ok(close_all(open))
    } else if text[positions[k]] == tokens.start {
        if k + 1 >= positions.len() {
            Err(ParseError::UnterminatedLabel)
        } else if !valid_utf8(label_bytes(text, positions, k)) {
            Err(ParseError::InvalidEncoding)
        } else if open.len() == 0 {
            Err(ParseError::MultipleRoots)
        } else {
            build(
                tokens,
                text,
                positions,
                k + 1,
                open.push(Tree::leaf(decode_utf8(label_bytes(text, positions, k)))),
            )
        }
    } else {
        if open.len() == 0 {
            Err(ParseError::UnbalancedClosingToken)
        } else if open.len() == 1 {
            if k + 1 == positions.len() {
                Ok(open[0])
            } else {
                build(tokens, text, positions, k + 1, Seq::empty())
            }
        } else {
            build(tokens, text, positions, k + 1, close_innermost(open))
        }
    }
}

/// The result of reading `text` as a tree.
///
/// A text with fewer than two structural tokens is no tree. Otherwise the
/// first token must open the root: a closing token finds no open node there.
/// The label of the root must be valid UTF-8, and the tokens after the first
/// are read by [`build`].
pub open spec fn parse_spec(tokens: Tokens, text: Seq<u8>) -> Result<TextTree, ParseError> {
    let positions = tokens.positions(text);
    if positions.len() < 2 {
        Err(ParseError::StructuralError)
    } else if text[positions[0]] != tokens.start {
        Err(ParseError::UnbalancedClosingToken)
    } else if !valid_utf8(label_bytes(text, positions, 0)) {
        Err(ParseError::InvalidEncoding)
    } else {
        build(
            tokens,
            text,
            positions,
            1,
            seq![Tree::leaf(decode_utf8(label_bytes(text, positions, 0)))],
        )
    }
}

/// Reading past the first token never reports too few tokens.
proof fn lemma_build_not_structural(
    tokens: Tokens,
    text: Seq<u8>,
    positions: Seq<int>,
    k: int,
    open: Seq<TextTree>,
)
    ensures
        build(tokens, text, positions, k, open) != Err::<TextTree, ParseError>(
            ParseError::StructuralError,
        ),
    decreases positions.len() - k,
{
    if k < positions.len() {
        if text[positions[k]] == tokens.start {
            if k + 1 < positions.len() && open.len() > 0 {
                lemma_build_not_structural(
                    tokens,
                    text,
                    positions,
                    k + 1,
                    open.push(Tree::leaf(decode_utf8(label_bytes(text, positions, k)))),
                );
            }
        } else if open.len() == 1 {
            lemma_build_not_structural(tokens, text, positions, k + 1, Seq::empty());
        } else if open.len() > 1 {
            lemma_build_not_structural(tokens, text, positions, k + 1, close_innermost(open));
        }
    }
}

/// Between two ASCII bytes of a text in UTF-8 stands text in UTF-8.
proof fn lemma_between_ascii(text: Seq<u8>, from: int, to: int)
    requires
        valid_utf8(text),
        0 <= from < to < text.len(),
        text[from] < 0x80,
        text[to] < 0x80,
    ensures
        valid_utf8(text.subrange(from + 1, to)),
{
    is_char_boundary_iff_not_is_continuation_byte(text, from);
    valid_utf8_split(text, from);
    let tail = text.subrange(from, text.len() as int);
    assert(tail[0] == text[from]);
    let rest = tail.subrange(1, tail.len() as int);
    assert(pop_first_scalar(tail) == rest);
    let index = to - from - 1;
    assert(rest[index] == text[to]);
    is_char_boundary_iff_not_is_continuation_byte(rest, index);
    valid_utf8_split(rest, index);
    assert(rest.subrange(0, index) =~= text.subrange(from + 1, to));
}

/// Where the opening and the closing byte are ASCII and the text is valid
/// UTF-8, every label is valid UTF-8, so reading never reports a label that
/// is not.
proof fn lemma_build_valid_text(
    tokens: Tokens,
    text: Seq<u8>,
    k: int,
    open: Seq<TextTree>,
)
    requires
        valid_utf8(text),
        tokens.start < 0x80,
        tokens.end < 0x80,
        0 <= k,
    ensures
        build(tokens, text, tokens.positions(text), k, open) != Err::<TextTree, ParseError>(
            ParseError::InvalidEncoding,
        ),
    decreases tokens.positions(text).len() - k,
{
    let positions = tokens.positions(text);
    tokens.lemma_positions(text);
    if k < positions.len() {
        if text[positions[k]] == tokens.start {
            if k + 1 < positions.len() {
                assert(tokens.is_token(text, positions[k]));
                assert(tokens.is_token(text, positions[k + 1]));
                assert(positions[k] < positions[k + 1]);
                lemma_between_ascii(text, positions[k], positions[k + 1]);
                if open.len() > 0 {
                    lemma_build_valid_text(
                        tokens,
                        text,
                        k + 1,
                        open.push(Tree::leaf(decode_utf8(label_bytes(text, positions, k)))),
                    );
                }
            }
        } else if open.len() == 1 {
            lemma_build_valid_text(tokens, text, k + 1, Seq::empty());
        } else if open.len() > 1 {
            lemma_build_valid_text(tokens, text, k + 1, close_innermost(open));
        }
    }
}

/// A text in UTF-8 has no label that is not: where the opening and the
/// closing byte are ASCII and `text` is valid UTF-8, reading it does not
/// fail with `InvalidEncoding`.
pub proof fn lemma_parse_valid_text(tokens: Tokens, text: Seq<u8>)
    requires
        valid_utf8(text),
        tokens.start < 0x80,
        tokens.end < 0x80,
    ensures
        parse_spec(tokens, text) != Err::<TextTree, ParseError>(ParseError::InvalidEncoding),
{
    let positions = tokens.positions(text);
    tokens.lemma_positions(text);
    if positions.len() >= 2 {
        assert(tokens.is_token(text, positions[0]));
        assert(tokens.is_token(text, positions[1]));
        assert(positions[0] < positions[1]);
        lemma_between_ascii(text, positions[0], positions[1]);
        lemma_build_valid_text(
            tokens,
            text,
            1,
            seq![Tree::leaf(decode_utf8(label_bytes(text, positions, 0)))],
        );
    }
}

/// A parser turns a text into a tree of labeled nodes. `T` is the type of
/// its structural tokens.
pub trait Parser<T> {
    /// The type of the labels of the nodes that the parser builds.
    type LabelType: View;

    /// The token that opens a node.
    spec fn spec_token_start(&self) -> T;

    /// The token that closes a node.
    spec fn spec_token_end(&self) -> T;

    /// The token that makes the structural token behind it ordinary text.
    spec fn spec_escape_char(&self) -> T;

    /// What the parser makes of a text: the tree, or why there is none.
    spec fn spec_parse(&self, text: Seq<char>) -> Result<
        Tree<<Self::LabelType as View>::V>,
        ParseError,
    >;

    /// The token that opens a node.
    fn token_start(&self) -> (token: T)
        ensures
            token == self.spec_token_start(),
    ;

    /// The token that closes a node.
    fn token_end(&self) -> (token: T)
        ensures
            token == self.spec_token_end(),
    ;

    /// The token that makes the structural token behind it ordinary text.
    fn escape_char(&self) -> (token: T)
        ensures
            token == self.spec_escape_char(),
    ;

    /// Reads `tree_string` as a tree and returns its root. What is returned
    /// depends on the parser and the text alone.
    fn parse(&self, tree_string: &str) -> (parsed: Result<Node<Self::LabelType>, ParseError>)
        ensures
            outcome(parsed) == self.spec_parse(tree_string@),
    ;

    /// A parser with the tokens that are usual for its notation.
    fn new() -> Self where Self: Sized;
}

/// The parser for bracket notation, `{label{child}{child}}`.
#[derive(Clone, Copy, Debug)]
pub struct BracketNotationParser {
    tokens: Tokens,
}

impl BracketNotationParser {
    /// The three bytes that the parser treats as structure.
    pub closed spec fn tokens(&self) -> Tokens {
        self.tokens
    }

    /// A parser that reads `tokens.start` as the opening byte, `tokens.end`
    /// as the closing byte and `tokens.escape` as the escape byte. A byte
    /// that is both the opening and the closing byte opens.
    pub fn with_tokens(tokens: Tokens) -> (parser: BracketNotationParser)
        ensures
            parser.tokens() == tokens,
    {
        BracketNotationParser { tokens }
    }

    /// Reads `text` as a tree and returns its root, or the first fault that
    /// reading meets. Fewer than two structural tokens, and nothing else,
    /// give `StructuralError`. Text that is valid UTF-8 as a whole never
    /// gives `InvalidEncoding` where the opening and the closing byte are
    /// ASCII.
    pub fn parse_bytes(&self, text: &[u8]) -> (parsed: Result<Node<StringLabel>, ParseError>)
        ensures
            outcome(parsed) == parse_spec(self.tokens(), text@),
            self.tokens().positions(text@).len() < 2 <==> outcome(parsed) == Err::<
                TextTree,
                ParseError,
            >(ParseError::StructuralError),
            valid_utf8(text@) && self.tokens().start < 0x80 && self.tokens().end < 0x80
                ==> outcome(parsed) != Err::<TextTree, ParseError>(ParseError::InvalidEncoding),
    {
        let positions = self.tokens.scan(text);
        let count = positions.len();
        let ghost places = as_ints(positions@);
        proof {
            if valid_utf8(text@) && self.tokens.start < 0x80 && self.tokens.end < 0x80 {
                lemma_parse_valid_text(self.tokens, text@);
            }
            self.tokens.lemma_positions(text@);
            lemma_build_not_structural(
                self.tokens,
                text@,
                places,
                1,
                seq![Tree::leaf(decode_utf8(label_bytes(text@, places, 0)))],
            );
        }
        if count < 2 {
            return Err(ParseError::StructuralError);
        }
        assert(places[0] < places[1]);
        assert(self.tokens.is_token(text@, places[0]));
        if text[positions[0]] != self.tokens.start {
            return Err(ParseError::UnbalancedClosingToken);
        }
        let root_label = match StringLabel::from_bytes(
            slice_subrange(text, positions[0] + 1, positions[1]),
        ) {
            Ok(label) => label,
            Err(error) => {
                return Err(error);
            },
        };
        let root = Node::new(root_label);
        proof {
            root.lemma_view();
            assert(trees_of(root.spec_children()) =~= Seq::empty());
        }
        let mut open: Vec<Node<StringLabel>> = Vec::new();
        open.push(root);
        assert(trees_of(open@) =~= seq![root@]);
        let mut k: usize = 1;
        while k < count
            invariant
                1 <= k <= count,
                count == positions.len(),
                places == as_ints(positions@),
                places == self.tokens.positions(text@),
                forall|i: int|
                    0 <= i < places.len() ==> self.tokens.is_token(text@, #[trigger] places[i]),
                forall|i: int, j: int|
                    0 <= i < j < places.len() ==> (#[trigger] places[i]) < (#[trigger] places[j]),
                open.len() > 0 || k < count,
                valid_utf8(text@) && self.tokens.start < 0x80 && self.tokens.end < 0x80
                    ==> parse_spec(self.tokens, text@) != Err::<TextTree, ParseError>(
                    ParseError::InvalidEncoding,
                ),
                build(self.tokens, text@, places, k as int, trees_of(open@)) == parse_spec(
                    self.tokens,
                    text@,
                ),
            decreases count - k,
        {
            let position = positions[k];
            assert(position == places[k as int]);
            assert(self.tokens.is_token(text@, places[k as int]));
            if text[position] == self.tokens.start {
                if k + 1 >= count {
                    return Err(ParseError::UnterminatedLabel);
                }
                assert(places[k as int] < places[k + 1]);
                assert(positions[k + 1] == places[k + 1]);
                let label = match StringLabel::from_bytes(
                    slice_subrange(text, position + 1, positions[k + 1]),
                ) {
                    Ok(label) => label,
                    Err(error) => {
                        return Err(error);
                    },
                };
                if open.len() == 0 {
                    return Err(ParseError::MultipleRoots);
                }
                let node = Node::new(label);
                proof {
                    node.lemma_view();
                    assert(trees_of(node.spec_children()) =~= Seq::empty());
                    assert(trees_of(open@.push(node)) =~= trees_of(open@).push(node@));
                }
                open.push(node);
            } else {
                let ghost before = open@;
                match open.pop() {
                    None => {
                        return Err(ParseError::UnbalancedClosingToken);
                    },
                    Some(node) => {
                        match open.pop() {
                            None => {
                                if k + 1 == count {
                                    return Ok(node);
                                }
                                assert(trees_of(open@) =~= Seq::empty());
                            },
                            Some(parent) => {
                                let mut parent = parent;
                                let ghost outer = parent;
                                parent.get_children_mut().push(node);
                                proof {
                                    lemma_with_child(outer, node, parent);
                                    assert(trees_of(open@.push(parent)) =~= close_innermost(
                                        trees_of(before),
                                    ));
                                }
                                open.push(parent);
                            },
                        }
                    },
                }
            }
            k += 1;
        }
        while open.len() > 1
            invariant
                open.len() > 0,
                Ok::<TextTree, ParseError>(close_all(trees_of(open@))) == parse_spec(
                    self.tokens,
                    text@,
                ),
            decreases open.len(),
        {
            let ghost before = open@;
            let node = open.pop().unwrap();
            let mut parent = open.pop().unwrap();
            let ghost outer = parent;
            parent.get_children_mut().push(node);
            proof {
                lemma_with_child(outer, node, parent);
                assert(trees_of(open@.push(parent)) =~= close_innermost(trees_of(before)));
            }
            open.push(parent);
        }
        let root = open.pop().unwrap();
        Ok(root)
    }
}

/// A node that got one more child stands for its former tree with the tree
/// of that child added.
proof fn lemma_with_child<L: View>(before: Node<L>, child: Node<L>, after: Node<L>)
    requires
        after.spec_label() == before.spec_label(),
        after.spec_children() == before.spec_children().push(child),
    ensures
        after@ == before@.with_child(child@),
{
    before.lemma_view();
    after.lemma_view();
    assert(trees_of(after.spec_children()) =~= trees_of(before.spec_children()).push(child@));
}

impl Parser<u8> for BracketNotationParser {
    type LabelType = StringLabel;

    open spec fn spec_token_start(&self) -> u8 {
        self.tokens().start
    }

    open spec fn spec_token_end(&self) -> u8 {
        self.tokens().end
    }

    open spec fn spec_escape_char(&self) -> u8 {
        self.tokens().escape
    }

    open spec fn spec_parse(&self, text: Seq<char>) -> Result<TextTree, ParseError> {
        parse_spec(self.tokens(), encode_utf8(text))
    }

    fn token_start(&self) -> (token: u8) {
        self.tokens.start
    }

    fn token_end(&self) -> (token: u8) {
        self.tokens.end
    }

    fn escape_char(&self) -> (token: u8) {
        self.tokens.escape
    }

    /// Reads `tree_string` as a tree and returns its root, or the first
    /// fault that reading meets. Fewer than two structural tokens, and
    /// nothing else, give `StructuralError`. Where the opening and the
    /// closing byte are ASCII, there is no `InvalidEncoding`.
    fn parse(&self, tree_string: &str) -> (parsed: Result<Node<StringLabel>, ParseError>)
        ensures
            self.tokens().positions(encode_utf8(tree_string@)).len() < 2 <==> outcome(parsed)
                == Err::<TextTree, ParseError>(ParseError::StructuralError),
            self.tokens().start < 0x80 && self.tokens().end < 0x80 ==> outcome(parsed) != Err::<
                TextTree,
                ParseError,
            >(ParseError::InvalidEncoding),
    {
        proof {
            encode_utf8_valid_utf8(tree_string@);
        }
        self.parse_bytes(tree_string.as_bytes())
    }

    /// The parser with `{` as the opening byte, `}` as the closing byte and
    /// `\` as the escape byte.
    fn new() -> (parser: BracketNotationParser)
        ensures
            parser.tokens() == (Tokens { start: TOKEN_START, end: TOKEN_END, escape: ESCAPE_CHAR }),
    {
        BracketNotationParser {
            tokens: Tokens { start: TOKEN_START, end: TOKEN_END, escape: ESCAPE_CHAR },
        }
    }
}

} // verus!
