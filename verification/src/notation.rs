//! Bracket notation as a way to write a tree down, and what the parser makes
//! of a text that was written that way.
use crate::error::ParseError;
use crate::node::Tree;
use crate::parsing::{
    build, close_innermost, label_bytes, parse_spec, BracketNotationParser, Parser, TextTree,
    ESCAPE_CHAR, TOKEN_END, TOKEN_START,
};
use crate::scan::Tokens;
use vstd::prelude::*;
use vstd::utf8::{
    char_u32_cast, decode_utf8, encode_scalar, encode_utf8, encode_utf8_decode_utf8,
    encode_utf8_valid_utf8,
    has_width_1_encoding, is_ascii_chars, is_ascii_chars_encode_utf8, last_continuation_byte,
    leading_byte_width_1, leading_byte_width_2, leading_byte_width_3, leading_byte_width_4,
    second_last_continuation_byte, third_last_continuation_byte, valid_utf8,
};

verus! {

/// The text of `tree`: the opening byte, the label in UTF-8, the texts of the
/// children from left to right, and the closing byte.
pub open spec fn render(tokens: Tokens, tree: TextTree) -> Seq<u8>
    decreases tree, 0nat,
{
    seq![tokens.start] + encode_utf8(tree.label) + render_children(
        tokens,
        tree.children,
        tree.children.len() as int,
    ) + seq![tokens.end]
}

/// The texts of the first `count` trees of `children`, one after the other.
pub open spec fn render_children(tokens: Tokens, children: Seq<TextTree>, count: int) -> Seq<u8>
    decreases children, count,
{
    if count <= 0 || count > children.len() {
        Seq::empty()
    } else {
        render_children(tokens, children, count - 1) + render(tokens, children[count - 1])
    }
}

/// Whether no label in `tree` holds `byte` in its UTF-8 form.
pub open spec fn labels_avoid(tree: TextTree, byte: u8) -> bool
    decreases tree,
{
    &&& forall|i: int|
        0 <= i < encode_utf8(tree.label).len() ==> #[trigger] encode_utf8(tree.label)[i] != byte
    &&& forall|j: int| 0 <= j < tree.children.len() ==> labels_avoid(#[trigger] tree.children[j], byte)
}

/// Whether no label in `tree` holds the opening or the closing byte.
pub open spec fn labels_are_plain(tokens: Tokens, tree: TextTree) -> bool {
    labels_avoid(tree, tokens.start) && labels_avoid(tree, tokens.end)
}

/// Whether no opening or closing byte of `text` stands behind the escape
/// byte, so that each of them is a structural token.
pub open spec fn is_unescaped(tokens: Tokens, text: Seq<u8>) -> bool {
    forall|i: int|
        0 <= i < text.len() && tokens.is_structural_byte(#[trigger] text[i]) ==> tokens.is_token(
            text,
            i,
        )
}

/// Whether `part` stands in `text` from position `at` on.
spec fn stands_at(text: Seq<u8>, at: int, part: Seq<u8>) -> bool {
    &&& 0 <= at
    &&& at + part.len() <= text.len()
    &&& text.subrange(at, at + part.len()) == part
}

/// The text of the first `fewer` children is the beginning of the text of the
/// first `more`.
proof fn lemma_children_prefix(tokens: Tokens, children: Seq<TextTree>, fewer: int, more: int)
    requires
        0 <= fewer <= more <= children.len(),
    ensures
        render_children(tokens, children, fewer).len() <= render_children(tokens, children, more).len(),
        render_children(tokens, children, more).subrange(
            0,
            render_children(tokens, children, fewer).len() as int,
        ) == render_children(tokens, children, fewer),
    decreases more - fewer,
{
    let short = render_children(tokens, children, fewer);
    if fewer < more {
        lemma_children_prefix(tokens, children, fewer, more - 1);
        let middle = render_children(tokens, children, more - 1);
        assert(render_children(tokens, children, more) == middle + render(
            tokens,
            children[more - 1],
        ));
        assert(render_children(tokens, children, more).subrange(0, short.len() as int)
            =~= middle.subrange(0, short.len() as int));
    } else {
        assert(short.subrange(0, short.len() as int) =~= short);
    }
}

/// Where the parts of a node stand in a text that holds the node at `at`:
/// the opening byte, the label, the child with index `j` if there is one,
/// and the closing byte.
proof fn lemma_parts(tokens: Tokens, text: Seq<u8>, at: int, tree: TextTree, j: int)
    requires
        stands_at(text, at, render(tokens, tree)),
        0 <= j <= tree.children.len(),
    ensures
        text[at] == tokens.start,
        stands_at(text, at + 1, encode_utf8(tree.label)),
        text[at + render(tokens, tree).len() - 1] == tokens.end,
        render(tokens, tree).len() == 2 + encode_utf8(tree.label).len() + render_children(
            tokens,
            tree.children,
            tree.children.len() as int,
        ).len(),
        render_children(tokens, tree.children, j).len() <= render_children(
            tokens,
            tree.children,
            tree.children.len() as int,
        ).len(),
        j < tree.children.len() ==> {
            &&& stands_at(
                text,
                at + 1 + encode_utf8(tree.label).len() + render_children(tokens, tree.children, j).len(),
                render(tokens, tree.children[j]),
            )
            &&& render_children(tokens, tree.children, j + 1).len() == render_children(
                tokens,
                tree.children,
                j,
            ).len() + render(tokens, tree.children[j]).len()
            &&& render_children(tokens, tree.children, j + 1).len() <= render_children(
                tokens,
                tree.children,
                tree.children.len() as int,
            ).len()
        },
{
    let whole = render(tokens, tree);
    let label = encode_utf8(tree.label);
    let size = label.len() as int;
    let count = tree.children.len() as int;
    let below = render_children(tokens, tree.children, count);
    assert(whole == seq![tokens.start] + label + below + seq![tokens.end]);
    assert(text[at] == text.subrange(at, at + whole.len())[0]);
    assert(text[at + whole.len() - 1] == text.subrange(at, at + whole.len())[whole.len() - 1]);
    assert(text.subrange(at + 1, at + 1 + size) =~= whole.subrange(1, 1 + size));
    assert(whole.subrange(1, 1 + size) =~= label);
    lemma_children_prefix(tokens, tree.children, j, count);
    if j < count {
        let child = render(tokens, tree.children[j]);
        let before = render_children(tokens, tree.children, j);
        let with = render_children(tokens, tree.children, j + 1);
        lemma_children_prefix(tokens, tree.children, j + 1, count);
        assert(with == before + child);
        let from = 1 + size + before.len() as int;
        let to = from + child.len() as int;
        assert(below.subrange(before.len() as int, with.len() as int) =~= below.subrange(
            0,
            with.len() as int,
        ).subrange(before.len() as int, with.len() as int));
        assert(with.subrange(before.len() as int, with.len() as int) =~= child);
        assert(whole.subrange(from, to) =~= below.subrange(before.len() as int, with.len() as int));
        assert(text.subrange(at + from, at + to) =~= whole.subrange(from, to));
    }
}

/// The token that follows a token in the text is the one that follows it in
/// the list of positions.
proof fn lemma_next_token(tokens: Tokens, text: Seq<u8>, k: int, next: int)
    requires
        0 <= k < tokens.positions(text).len(),
        tokens.positions(text)[k] < next,
        tokens.is_token(text, next),
        forall|i: int| tokens.positions(text)[k] < i < next ==> !tokens.is_token(text, i),
    ensures
        k + 1 < tokens.positions(text).len(),
        tokens.positions(text)[k + 1] == next,
{
    let positions = tokens.positions(text);
    tokens.lemma_positions(text);
    let found = choose|j: int| 0 <= j < positions.len() && positions[j] == next;
    if found <= k {
        if found < k {
            assert(positions[found] < positions[k]);
        }
    } else if found > k + 1 {
        assert(positions[k] < positions[k + 1]);
        assert(positions[k + 1] < positions[found]);
        assert(tokens.is_token(text, positions[k + 1]));
    }
}

/// Reading the children of a node that stands in the text. The node `tree`
/// stands at `at`, its first `done` children have been read, and
/// `positions[k]` is the token behind them. Reading goes on to the closing
/// token of the node, `positions[reached]`, without a fault, and the node is
/// then complete.
proof fn lemma_read_children(
    tokens: Tokens,
    text: Seq<u8>,
    k: int,
    open: Seq<TextTree>,
    tree: TextTree,
    at: int,
    done: int,
) -> (reached: int)
    requires
        tokens.start != tokens.end,
        is_unescaped(tokens, text),
        labels_are_plain(tokens, tree),
        stands_at(text, at, render(tokens, tree)),
        0 <= done <= tree.children.len(),
        0 <= k < tokens.positions(text).len(),
        tokens.positions(text)[k] == at + 1 + encode_utf8(tree.label).len() + render_children(
            tokens,
            tree.children,
            done,
        ).len(),
        open.len() >= 1,
        open.last() == (Tree { label: tree.label, children: tree.children.take(done) }),
    ensures
        k <= reached < tokens.positions(text).len(),
        tokens.positions(text)[reached] == at + render(tokens, tree).len() - 1,
        build(tokens, text, tokens.positions(text), k, open) == build(
            tokens,
            text,
            tokens.positions(text),
            reached,
            open.drop_last().push(tree),
        ),
    decreases tree, tree.children.len() - done,
{
    let positions = tokens.positions(text);
    lemma_parts(tokens, text, at, tree, done);
    if done == tree.children.len() {
        assert(tree.children.take(done) =~= tree.children);
        assert(open.drop_last().push(tree) =~= open);
        k
    } else {
        let child = tree.children[done];
        let child_at = positions[k];
        let closed = lemma_read_node(tokens, text, k, open, child, child_at);
        // the closing token of the child
        lemma_parts(tokens, text, child_at, child, 0);
        let grown = Tree { label: tree.label, children: tree.children.take(done + 1) };
        let next_open = open.drop_last().push(grown);
        assert(tree.children.take(done + 1) =~= tree.children.take(done).push(child));
        assert(close_innermost(open.push(child)) =~= next_open);
        assert(text[positions[closed]] == tokens.end);
        // the token behind the child
        let behind = child_at + render(tokens, child).len();
        lemma_parts(tokens, text, at, tree, done + 1);
        assert(tokens.is_structural_byte(text[behind])) by {
            if done + 1 < tree.children.len() {
                lemma_parts(tokens, text, behind, tree.children[done + 1], 0);
            }
        }
        lemma_next_token(tokens, text, closed, behind);
        assert(build(tokens, text, positions, closed, open.push(child)) == build(
            tokens,
            text,
            positions,
            closed + 1,
            next_open,
        ));
        let reached = lemma_read_children(tokens, text, closed + 1, next_open, tree, at, done + 1);
        assert(next_open.drop_last().push(tree) =~= open.drop_last().push(tree));
        reached
    }
}

/// Reading a node that stands in the text at `at`, where `positions[k]` is
/// its opening token and some node is open. Reading goes on to the closing
/// token of the node, `positions[reached]`, without a fault, and the node is
/// then the innermost open node.
proof fn lemma_read_node(
    tokens: Tokens,
    text: Seq<u8>,
    k: int,
    open: Seq<TextTree>,
    tree: TextTree,
    at: int,
) -> (reached: int)
    requires
        tokens.start != tokens.end,
        is_unescaped(tokens, text),
        labels_are_plain(tokens, tree),
        stands_at(text, at, render(tokens, tree)),
        0 <= k < tokens.positions(text).len(),
        tokens.positions(text)[k] == at,
        open.len() >= 1,
    ensures
        k < reached < tokens.positions(text).len(),
        tokens.positions(text)[reached] == at + render(tokens, tree).len() - 1,
        build(tokens, text, tokens.positions(text), k, open) == build(
            tokens,
            text,
            tokens.positions(text),
            reached,
            open.push(tree),
        ),
    decreases tree, tree.children.len() + 1,
{
    let positions = tokens.positions(text);
    lemma_label(tokens, text, k, tree, at);
    let started = open.push(Tree::leaf(tree.label));
    assert(tree.children.take(0) =~= Seq::empty());
    let reached = lemma_read_children(tokens, text, k + 1, started, tree, at, 0);
    assert(started.drop_last() =~= open);
    reached
}

/// The label of a node that stands in the text at `at`, where `positions[k]`
/// is its opening token: a token follows, and the bytes up to it are the
/// label.
proof fn lemma_label(tokens: Tokens, text: Seq<u8>, k: int, tree: TextTree, at: int)
    requires
        is_unescaped(tokens, text),
        labels_are_plain(tokens, tree),
        stands_at(text, at, render(tokens, tree)),
        0 <= k < tokens.positions(text).len(),
        tokens.positions(text)[k] == at,
    ensures
        text[at] == tokens.start,
        k + 1 < tokens.positions(text).len(),
        tokens.positions(text)[k + 1] == at + 1 + encode_utf8(tree.label).len(),
        label_bytes(text, tokens.positions(text), k) == encode_utf8(tree.label),
        valid_utf8(label_bytes(text, tokens.positions(text), k)),
        decode_utf8(label_bytes(text, tokens.positions(text), k)) == tree.label,
{
    let label = encode_utf8(tree.label);
    let next = at + 1 + label.len();
    lemma_parts(tokens, text, at, tree, 0);
    assert(tokens.is_structural_byte(text[next])) by {
        if 0 < tree.children.len() {
            lemma_parts(tokens, text, next, tree.children[0], 0);
        }
    }
    assert forall|i: int| at < i < next implies !tokens.is_token(text, i) by {
        assert(text[i] == text.subrange(at + 1, at + 1 + label.len())[i - at - 1]);
    }
    lemma_next_token(tokens, text, k, next);
    encode_utf8_valid_utf8(tree.label);
    encode_utf8_decode_utf8(tree.label);
}

/// A tree that is written in bracket notation and read again is the same
/// tree: where the opening and the closing byte differ, no label holds
/// either of them, and none of them stands behind the escape byte in the
/// text, reading the text of a tree gives that tree, with every node's
/// label, children and depth as written.
pub proof fn theorem_parse_render(tokens: Tokens, tree: TextTree)
    requires
        tokens.start != tokens.end,
        labels_are_plain(tokens, tree),
        is_unescaped(tokens, render(tokens, tree)),
    ensures
        parse_spec(tokens, render(tokens, tree)) == Ok::<TextTree, ParseError>(tree),
{
    let text = render(tokens, tree);
    let positions = tokens.positions(text);
    tokens.lemma_positions(text);
    assert(text.subrange(0, text.len() as int) =~= text);
    lemma_parts(tokens, text, 0, tree, 0);
    assert(tokens.is_token(text, 0));
    let first = choose|j: int| 0 <= j < positions.len() && positions[j] == 0;
    if first > 0 {
        assert(positions[0] < positions[first]);
        assert(tokens.is_token(text, positions[0]));
    }
    lemma_label(tokens, text, 0, tree, 0);
    let started = seq![Tree::leaf(tree.label)];
    assert(tree.children.take(0) =~= Seq::empty());
    let reached = lemma_read_children(tokens, text, 1, started, tree, 0, 0);
    assert(started.drop_last().push(tree) =~= seq![tree]);
    if reached + 1 < positions.len() {
        assert(positions[reached] < positions[reached + 1]);
        assert(tokens.is_token(text, positions[reached + 1]));
    }
}

/// A single node that is written and read again keeps its label: where the
/// opening and the closing byte differ, `label` holds neither, and the byte
/// before the closing byte is not the escape byte, the text made of the
/// opening byte, the label and the closing byte is read as a leaf with that
/// label.
pub proof fn theorem_single_node(tokens: Tokens, label: Seq<char>)
    requires
        tokens.start != tokens.end,
        forall|i: int|
            0 <= i < encode_utf8(label).len() ==> !tokens.is_structural_byte(
                #[trigger] encode_utf8(label)[i],
            ),
        (seq![tokens.start] + encode_utf8(label)).last() != tokens.escape,
    ensures
        parse_spec(tokens, seq![tokens.start] + encode_utf8(label) + seq![tokens.end]) == Ok::<
            TextTree,
            ParseError,
        >(Tree::leaf(label)),
{
    let tree = Tree::leaf(label);
    let text = seq![tokens.start] + encode_utf8(label) + seq![tokens.end];
    assert(render_children(tokens, tree.children, 0) =~= Seq::empty());
    assert(render(tokens, tree) =~= text);
    assert forall|i: int|
        0 <= i < text.len() && tokens.is_structural_byte(#[trigger] text[i]) implies tokens.is_token(
        text,
        i,
    ) by {
        if 0 < i < text.len() - 1 {
            assert(text[i] == encode_utf8(label)[i - 1]);
        }
    }
    theorem_parse_render(tokens, tree);
}

/// A byte that is neither the opening nor the closing byte and stands in no
/// label does not stand in the text of the tree.
proof fn lemma_render_avoids(tokens: Tokens, tree: TextTree, byte: u8)
    requires
        byte != tokens.start,
        byte != tokens.end,
        labels_avoid(tree, byte),
    ensures
        forall|i: int|
            0 <= i < render(tokens, tree).len() ==> #[trigger] render(tokens, tree)[i] != byte,
    decreases tree, tree.children.len() + 1,
{
    let label = encode_utf8(tree.label);
    let below = render_children(tokens, tree.children, tree.children.len() as int);
    lemma_render_children_avoid(tokens, tree, byte, tree.children.len() as int);
    assert forall|i: int| 0 <= i < render(tokens, tree).len() implies #[trigger] render(
        tokens,
        tree,
    )[i] != byte by {
        if 1 <= i < 1 + label.len() {
            assert(render(tokens, tree)[i] == label[i - 1]);
        } else if 1 + label.len() <= i < 1 + label.len() + below.len() {
            assert(render(tokens, tree)[i] == below[i - 1 - label.len()]);
        }
    }
}

/// The same for the text of the first `count` children of `tree`.
proof fn lemma_render_children_avoid(tokens: Tokens, tree: TextTree, byte: u8, count: int)
    requires
        byte != tokens.start,
        byte != tokens.end,
        labels_avoid(tree, byte),
        0 <= count <= tree.children.len(),
    ensures
        forall|i: int|
            0 <= i < render_children(tokens, tree.children, count).len() ==> #[trigger] render_children(
                tokens,
                tree.children,
                count,
            )[i] != byte,
    decreases tree, count,
{
    if count > 0 {
        let before = render_children(tokens, tree.children, count - 1);
        let last = render(tokens, tree.children[count - 1]);
        lemma_render_children_avoid(tokens, tree, byte, count - 1);
        lemma_render_avoids(tokens, tree.children[count - 1], byte);
        assert forall|i: int|
            0 <= i < render_children(tokens, tree.children, count).len() implies #[trigger] render_children(
            tokens,
            tree.children,
            count,
        )[i] != byte by {
            if i < before.len() {
                assert(render_children(tokens, tree.children, count)[i] == before[i]);
            } else {
                assert(render_children(tokens, tree.children, count)[i] == last[i - before.len()]);
            }
        }
    }
}

/// A tree whose labels hold none of the three structural bytes is read back
/// from its text: where the three bytes differ from each other and stand in
/// no label, reading the text of a tree gives that tree.
pub proof fn theorem_parse_render_plain(tokens: Tokens, tree: TextTree)
    requires
        tokens.start != tokens.end,
        tokens.escape != tokens.start,
        tokens.escape != tokens.end,
        labels_avoid(tree, tokens.start),
        labels_avoid(tree, tokens.end),
        labels_avoid(tree, tokens.escape),
    ensures
        parse_spec(tokens, render(tokens, tree)) == Ok::<TextTree, ParseError>(tree),
{
    lemma_render_avoids(tokens, tree, tokens.escape);
    theorem_parse_render(tokens, tree);
}

/// The three bytes of the usual notation: `{`, `}` and `\`.
pub open spec fn usual_tokens() -> Tokens {
    Tokens { start: TOKEN_START, end: TOKEN_END, escape: ESCAPE_CHAR }
}

/// The text of `tree` in the usual notation, as characters: `{`, the label,
/// the texts of the children from left to right, and `}`.
pub open spec fn render_text(tree: TextTree) -> Seq<char>
    decreases tree, 0nat,
{
    seq!['{'] + tree.label + render_text_children(tree.children, tree.children.len() as int)
        + seq!['}']
}

/// The texts of the first `count` trees of `children` in the usual notation,
/// one after the other.
pub open spec fn render_text_children(children: Seq<TextTree>, count: int) -> Seq<char>
    decreases children, count,
{
    if count <= 0 || count > children.len() {
        Seq::empty()
    } else {
        render_text_children(children, count - 1) + render_text(children[count - 1])
    }
}

/// Whether no label in `tree` holds the character `c`.
pub open spec fn labels_lack(tree: TextTree, c: char) -> bool
    decreases tree,
{
    &&& forall|i: int| 0 <= i < tree.label.len() ==> #[trigger] tree.label[i] != c
    &&& forall|j: int| 0 <= j < tree.children.len() ==> labels_lack(#[trigger] tree.children[j], c)
}

/// The UTF-8 form of two texts in a row is the UTF-8 form of the first
/// followed by that of the second.
proof fn lemma_encode_concat(first: Seq<char>, second: Seq<char>)
    ensures
        encode_utf8(first + second) == encode_utf8(first) + encode_utf8(second),
    decreases first.len(),
{
    if first.len() == 0 {
        assert(first + second =~= second);
        assert(encode_utf8(first) + encode_utf8(second) =~= encode_utf8(second));
    } else {
        assert((first + second).drop_first() =~= first.drop_first() + second);
        lemma_encode_concat(first.drop_first(), second);
        assert(encode_utf8(first + second) =~= encode_utf8(first) + encode_utf8(second));
    }
}

/// The UTF-8 form of one ASCII character is the one byte with its number.
proof fn lemma_encode_ascii(c: char)
    requires
        c as u32 <= 0x7f,
    ensures
        encode_utf8(seq![c]) == seq![c as u8],
{
    assert(is_ascii_chars(seq![c]));
    is_ascii_chars_encode_utf8(seq![c]);
    assert(encode_utf8(seq![c]) =~= seq![c as u8]);
}

/// An ASCII byte stands in the UTF-8 form of a scalar value only as the form
/// of the ASCII character with that number.
proof fn lemma_scalar_lacks(scalar: u32, byte: u8)
    by (bit_vector)
    requires
        byte < 0x80,
        scalar != byte as u32,
    ensures
        has_width_1_encoding(scalar) ==> leading_byte_width_1(scalar) != byte,
        leading_byte_width_2(scalar) != byte,
        leading_byte_width_3(scalar) != byte,
        leading_byte_width_4(scalar) != byte,
        last_continuation_byte(scalar) != byte,
        second_last_continuation_byte(scalar) != byte,
        third_last_continuation_byte(scalar) != byte,
{
}

/// A text without the ASCII character with the number `byte` has a UTF-8
/// form without that byte.
proof fn lemma_encode_lacks(chars: Seq<char>, c: char, byte: u8)
    requires
        byte < 0x80,
        c as u32 == byte as u32,
        forall|j: int| 0 <= j < chars.len() ==> #[trigger] chars[j] != c,
    ensures
        forall|i: int| 0 <= i < encode_utf8(chars).len() ==> #[trigger] encode_utf8(chars)[i] != byte,
    decreases chars.len(),
{
    if chars.len() > 0 {
        let head = encode_scalar(chars[0] as u32);
        let rest = encode_utf8(chars.drop_first());
        assert(chars[0] as u32 != byte as u32) by {
            if chars[0] as u32 == byte as u32 {
                char_u32_cast(chars[0], byte as u32);
                char_u32_cast(c, byte as u32);
            }
        }
        lemma_scalar_lacks(chars[0] as u32, byte);
        assert forall|j: int| 0 <= j < chars.drop_first().len() implies #[trigger] chars.drop_first()[j]
            != c by {
            assert(chars.drop_first()[j] == chars[j + 1]);
        }
        lemma_encode_lacks(chars.drop_first(), c, byte);
        assert forall|i: int| 0 <= i < encode_utf8(chars).len() implies #[trigger] encode_utf8(
            chars,
        )[i] != byte by {
            if i < head.len() {
                assert(encode_utf8(chars)[i] == head[i]);
            } else {
                assert(encode_utf8(chars)[i] == rest[i - head.len()]);
            }
        }
    }
}

/// Labels without the ASCII character with the number `byte` are labels
/// without that byte.
proof fn lemma_labels_lack(tree: TextTree, c: char, byte: u8)
    requires
        byte < 0x80,
        c as u32 == byte as u32,
        labels_lack(tree, c),
    ensures
        labels_avoid(tree, byte),
    decreases tree,
{
    lemma_encode_lacks(tree.label, c, byte);
    assert forall|j: int| 0 <= j < tree.children.len() implies labels_avoid(
        #[trigger] tree.children[j],
        byte,
    ) by {
        lemma_labels_lack(tree.children[j], c, byte);
    }
}

/// The text of a tree in the usual notation, put in UTF-8, is the text of
/// the tree with the usual bytes.
proof fn lemma_render_text(tree: TextTree)
    ensures
        encode_utf8(render_text(tree)) == render(usual_tokens(), tree),
    decreases tree, tree.children.len() + 1,
{
    let below = render_text_children(tree.children, tree.children.len() as int);
    lemma_render_text_children(tree, tree.children.len() as int);
    lemma_encode_ascii('{');
    lemma_encode_ascii('}');
    lemma_encode_concat(seq!['{'], tree.label);
    lemma_encode_concat(seq!['{'] + tree.label, below);
    lemma_encode_concat(seq!['{'] + tree.label + below, seq!['}']);
}

/// The same for the first `count` children of `tree`.
proof fn lemma_render_text_children(tree: TextTree, count: int)
    requires
        0 <= count <= tree.children.len(),
    ensures
        encode_utf8(render_text_children(tree.children, count)) == render_children(
            usual_tokens(),
            tree.children,
            count,
        ),
    decreases tree, count,
{
    if count > 0 {
        lemma_render_text_children(tree, count - 1);
        lemma_render_text(tree.children[count - 1]);
        lemma_encode_concat(
            render_text_children(tree.children, count - 1),
            render_text(tree.children[count - 1]),
        );
    }
}

/// In the usual notation a tree that is written and read again is the same
/// tree: where no label holds `{`, `}` or `\`, the parser with the usual
/// tokens reads the text of a tree as that tree, with every node's label,
/// children and depth as written.
pub proof fn theorem_parse_text(parser: BracketNotationParser, tree: TextTree)
    requires
        parser.tokens() == usual_tokens(),
        labels_lack(tree, '{'),
        labels_lack(tree, '}'),
        labels_lack(tree, '\\'),
    ensures
        parser.spec_parse(render_text(tree)) == Ok::<TextTree, ParseError>(tree),
{
    lemma_labels_lack(tree, '{', TOKEN_START);
    lemma_labels_lack(tree, '}', TOKEN_END);
    lemma_labels_lack(tree, '\\', ESCAPE_CHAR);
    lemma_render_text(tree);
    theorem_parse_render_plain(usual_tokens(), tree);
}

/// In the usual notation a single node that is written and read again keeps
/// its label: where `label` holds neither `{` nor `}` and does not end in
/// `\`, the parser with the usual tokens reads `{`, the label and `}` as a
/// leaf with that label.
pub proof fn theorem_single_node_text(parser: BracketNotationParser, label: Seq<char>)
    requires
        parser.tokens() == usual_tokens(),
        forall|i: int| 0 <= i < label.len() ==> #[trigger] label[i] != '{' && label[i] != '}',
        label.len() > 0 ==> label.last() != '\\',
    ensures
        parser.spec_parse(seq!['{'] + label + seq!['}']) == Ok::<TextTree, ParseError>(
            Tree::leaf(label),
        ),
{
    let bytes = encode_utf8(label);
    lemma_encode_lacks(label, '{', TOKEN_START);
    lemma_encode_lacks(label, '}', TOKEN_END);
    lemma_encode_ascii('{');
    lemma_encode_ascii('}');
    lemma_encode_concat(seq!['{'], label);
    lemma_encode_concat(seq!['{'] + label, seq!['}']);
    if label.len() > 0 {
        let last = seq![label.last()];
        assert(label =~= label.drop_last() + last);
        lemma_encode_concat(label.drop_last(), last);
        lemma_encode_lacks(last, '\\', ESCAPE_CHAR);
        assert(encode_utf8(last).len() > 0);
        assert(bytes.last() == encode_utf8(last).last());
    } else {
        assert(seq![TOKEN_START] + bytes =~= seq![TOKEN_START]);
    }
    theorem_single_node(usual_tokens(), label);
}

} // verus!
