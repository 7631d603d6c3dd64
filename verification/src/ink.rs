//! What formatting keeps: the text of a rendered line, its spaces and tabs
//! taken out, is that of its tokens, in order.

use vstd::prelude::*;
use crate::document::{lemma_rendered_blocks_len, lemma_rendered_lines_len, rendered_blocks,
    rendered_lines};
use crate::normalize::{lemma_normalized_lines_tokens, lemma_normalized_lines_wf, normalized_lines};
use crate::plan::{planned, Widths};
use crate::render::{comment_indented, instruction_text, line_parts, line_text, part_text,
    rendered_block, token_text};
use crate::segment::{concatenated, lemma_segmented_concatenated, lemma_segmented_wf, segmented};
use crate::text::{byte_len, joined, padded, spaces, trimmed};
use crate::token::{line_wf, lines_wf, tokens_of, BlockModel, LineModel, TokenModel};

verus! {

/// A space or a tab: the characters that layout is made of.
pub open spec fn is_blank(c: char) -> bool {
    c == ' ' || c == '\t'
}

/// The text without its spaces and tabs.
pub open spec fn ink(s: Seq<char>) -> Seq<char>
    decreases s.len(),
{
    if s.len() == 0 {
        Seq::empty()
    } else if is_blank(s.last()) {
        ink(s.drop_last())
    } else {
        ink(s.drop_last()).push(s.last())
    }
}

/// What an instruction leaves in the output: its mnemonic and its operands,
/// with a comma after the first of two.
pub open spec fn instruction_ink(mnemonic: Seq<char>, operands: Seq<Seq<char>>) -> Seq<char> {
    if operands.len() == 0 {
        ink(mnemonic)
    } else if operands.len() == 1 {
        ink(mnemonic) + ink(operands[0])
    } else {
        ink(mnemonic) + ink(operands[0]) + seq![','] + ink(operands[1])
    }
}

/// What a token leaves in the output: its text, and for a comment the marker
/// and the trimmed body.
pub open spec fn token_ink(token: TokenModel) -> Seq<char> {
    match token {
        TokenModel::Label(text) => ink(text),
        TokenModel::Directive(text) => ink(text),
        TokenModel::Instruction { mnemonic, operands } => instruction_ink(mnemonic, operands),
        TokenModel::Comment(body) => seq!['#'] + ink(trimmed(body)),
    }
}

/// What the tokens of a line leave in the output, in order.
pub open spec fn line_ink(line: LineModel) -> Seq<char>
    decreases line.len(),
{
    if line.len() == 0 {
        Seq::empty()
    } else {
        line_ink(line.drop_last()) + token_ink(line.last())
    }
}

/// Taking the blanks out of two texts in a row is taking them out of each.
pub proof fn lemma_ink_concat(a: Seq<char>, b: Seq<char>)
    ensures
        ink(a + b) == ink(a) + ink(b),
    decreases b.len(),
{
    if b.len() == 0 {
        assert(a + b =~= a);
        assert(ink(a) + ink(b) =~= ink(a));
    } else {
        assert((a + b).drop_last() =~= a + b.drop_last());
        lemma_ink_concat(a, b.drop_last());
        assert(ink(a + b) =~= ink(a) + ink(b));
    }
}

/// A single character is kept unless it is a blank.
pub proof fn lemma_ink_one(c: char)
    ensures
        ink(seq![c]) == if is_blank(c) {
            Seq::<char>::empty()
        } else {
            seq![c]
        },
{
    assert(seq![c].drop_last() =~= Seq::<char>::empty());
    assert(ink(seq![c].drop_last()) =~= Seq::<char>::empty());
    assert(ink(seq![c]) =~= if is_blank(c) {
        Seq::<char>::empty()
    } else {
        seq![c]
    });
}

/// Nothing is left of a run of spaces.
pub proof fn lemma_ink_spaces(n: nat)
    ensures
        ink(spaces(n)) == Seq::<char>::empty(),
    decreases n,
{
    if n > 0 {
        assert(spaces(n).drop_last() =~= spaces((n - 1) as nat));
        lemma_ink_spaces((n - 1) as nat);
    }
}

/// Padding adds blanks only.
pub proof fn lemma_ink_padded(s: Seq<char>, width: nat)
    ensures
        ink(padded(s, width)) == ink(s),
{
    if padded(s, width) != s {
        let gap = (width - byte_len(s)) as nat;
        lemma_ink_concat(s, spaces(gap));
        lemma_ink_spaces(gap);
        assert(ink(s) + Seq::<char>::empty() =~= ink(s));
    }
}

/// An instruction is written with its mnemonic, its operands and the comma
/// between two operands, and with blanks besides.
pub proof fn lemma_instruction_ink(mnemonic: Seq<char>, operands: Seq<Seq<char>>, widths: Widths)
    requires
        operands.len() <= 2,
    ensures
        ink(instruction_text(mnemonic, operands, widths)) == instruction_ink(mnemonic, operands),
{
    let name = padded(mnemonic, widths.mnemonic);
    lemma_ink_padded(mnemonic, widths.mnemonic);
    lemma_ink_one(' ');
    lemma_ink_one(',');
    if operands.len() == 1 {
        let first = padded(operands[0], widths.first);
        lemma_ink_padded(operands[0], widths.first);
        lemma_ink_concat(name, seq![' ']);
        lemma_ink_concat(name + seq![' '], first);
        assert(ink(name) + Seq::<char>::empty() + ink(operands[0]) =~= ink(mnemonic) + ink(
            operands[0],
        ));
    } else if operands.len() == 2 {
        let with_comma = operands[0].push(',');
        assert(with_comma =~= operands[0] + seq![',']);
        let first = padded(with_comma, widths.first + 1);
        let second = padded(operands[1], widths.second);
        lemma_ink_padded(with_comma, widths.first + 1);
        lemma_ink_padded(operands[1], widths.second);
        lemma_ink_concat(operands[0], seq![',']);
        lemma_ink_concat(name, seq![' ']);
        lemma_ink_concat(name + seq![' '], first);
        lemma_ink_concat(name + seq![' '] + first, seq![' ']);
        lemma_ink_concat(name + seq![' '] + first + seq![' '], second);
        assert(ink(name) + Seq::<char>::empty() + (ink(operands[0]) + seq![','])
            + Seq::<char>::empty() + ink(operands[1]) =~= instruction_ink(mnemonic, operands));
    }
}

/// A token is written with its own text, and with blanks besides.
pub proof fn lemma_token_ink(token: TokenModel, widths: Widths)
    requires
        token.wf(),
    ensures
        ink(token_text(token, widths)) == token_ink(token),
{
    match token {
        TokenModel::Instruction { mnemonic, operands } => {
            lemma_instruction_ink(mnemonic, operands, widths);
            lemma_ink_one('\t');
            lemma_ink_concat(seq!['\t'], instruction_text(mnemonic, operands, widths));
            assert(Seq::<char>::empty() + instruction_ink(mnemonic, operands) =~= instruction_ink(
                mnemonic,
                operands,
            ));
        },
        TokenModel::Comment(body) => {
            assert(seq!['#', ' '] =~= seq!['#'] + seq![' ']);
            lemma_ink_one('#');
            lemma_ink_one(' ');
            lemma_ink_concat(seq!['#'], seq![' ']);
            lemma_ink_concat(seq!['#', ' '], trimmed(body));
            assert(seq!['#'] + Seq::<char>::empty() + ink(trimmed(body)) =~= seq!['#'] + ink(
                trimmed(body),
            ));
        },
        _ => {},
    }
}

/// What is left of parts joined by a space is what is left of each, in order.
proof fn lemma_joined_ink(parts: Seq<Seq<char>>, line: LineModel)
    requires
        parts.len() == line.len(),
        forall|k: int| 0 <= k < parts.len() ==> ink(#[trigger] parts[k]) == token_ink(line[k]),
    ensures
        ink(joined(parts, seq![' '])) == line_ink(line),
    decreases parts.len(),
{
    if parts.len() == 0 {
    } else if parts.len() == 1 {
        assert(line.drop_last() =~= Seq::<TokenModel>::empty());
        assert(line_ink(line.drop_last()) =~= Seq::<char>::empty());
        assert(line.last() == line[0]);
        assert(Seq::<char>::empty() + token_ink(line[0]) =~= token_ink(line[0]));
    } else {
        let front = parts.drop_last();
        let tokens = line.drop_last();
        assert forall|k: int| 0 <= k < front.len() implies ink(#[trigger] front[k]) == token_ink(
            tokens[k],
        ) by {
            assert(front[k] == parts[k]);
            assert(tokens[k] == line[k]);
        }
        lemma_joined_ink(front, tokens);
        let head = joined(front, seq![' ']);
        lemma_ink_one(' ');
        lemma_ink_concat(head, seq![' ']);
        lemma_ink_concat(head + seq![' '], parts.last());
        assert(parts.last() == parts[parts.len() - 1]);
        assert(line.last() == line[line.len() - 1]);
        assert(ink(head) + Seq::<char>::empty() + ink(parts.last()) =~= line_ink(tokens)
            + token_ink(line.last()));
    }
}

/// Only layout is added to a line: its text, blanks taken out, is what its
/// tokens leave, under any plan and with or without a tab before a comment.
pub proof fn lemma_line_ink(line: LineModel, widths: Widths, indented: bool)
    requires
        line_wf(line),
    ensures
        ink(line_text(line, widths, indented)) == line_ink(line),
{
    let parts = line_parts(line, widths, indented);
    assert forall|k: int| 0 <= k < parts.len() implies ink(#[trigger] parts[k]) == token_ink(
        line[k],
    ) by {
        lemma_token_ink(line[k], widths);
        if part_text(line, k, widths, indented) != token_text(line[k], widths) {
            lemma_ink_one('\t');
            lemma_ink_concat(seq!['\t'], token_text(line[k], widths));
            assert(Seq::<char>::empty() + token_ink(line[k]) =~= token_ink(line[k]));
        }
    }
    lemma_joined_ink(parts, line);
}

/// Every line of rendered blocks is the text of the line it stands for, with
/// nothing but layout added.
pub proof fn lemma_rendered_blocks_ink(blocks: Seq<BlockModel>, i: int)
    requires
        forall|b: int| 0 <= b < blocks.len() ==> lines_wf(#[trigger] blocks[b]),
        0 <= i < concatenated(blocks).len(),
    ensures
        rendered_blocks(blocks).len() == concatenated(blocks).len(),
        ink(rendered_blocks(blocks)[i]) == line_ink(concatenated(blocks)[i]),
    decreases blocks.len(),
{
    lemma_rendered_blocks_len(blocks);
    if blocks.len() > 0 {
        let front = blocks.drop_last();
        lemma_rendered_blocks_len(front);
        if i < concatenated(front).len() {
            assert forall|b: int| 0 <= b < front.len() implies lines_wf(#[trigger] front[b]) by {
                assert(front[b] == blocks[b]);
            }
            lemma_rendered_blocks_ink(front, i);
        } else {
            let block = blocks.last();
            let j = i - concatenated(front).len();
            assert(lines_wf(block));
            assert(rendered_blocks(blocks)[i] == rendered_block(block)[j]);
            assert(concatenated(blocks)[i] == block[j]);
            lemma_line_ink(block[j], planned(block), comment_indented(block, j));
        }
    }
}

/// Formatting changes layout only: line `i` of the rendered document, its
/// spaces and tabs taken out, is what the tokens of line `i` leave, in their
/// order.
pub proof fn lemma_rendered_lines_ink(lines: Seq<LineModel>, i: int)
    requires
        lines_wf(lines),
        0 <= i < lines.len(),
    ensures
        rendered_lines(lines).len() == lines.len(),
        ink(rendered_lines(lines)[i]) == line_ink(lines[i]),
{
    lemma_segmented_wf(lines);
    lemma_segmented_concatenated(lines);
    lemma_rendered_blocks_ink(segmented(lines), i);
}

/// What is left of the texts, one after the other.
pub open spec fn all_ink(texts: Seq<Seq<char>>) -> Seq<char>
    decreases texts.len(),
{
    if texts.len() == 0 {
        Seq::empty()
    } else {
        all_ink(texts.drop_last()) + ink(texts.last())
    }
}

/// What two runs of tokens leave is what the first leaves, then what the
/// second leaves.
pub proof fn lemma_line_ink_concat(front: LineModel, back: LineModel)
    ensures
        line_ink(front + back) == line_ink(front) + line_ink(back),
    decreases back.len(),
{
    if back.len() == 0 {
        assert(front + back =~= front);
        assert(line_ink(front) + line_ink(back) =~= line_ink(front));
    } else {
        assert((front + back).drop_last() =~= front + back.drop_last());
        lemma_line_ink_concat(front, back.drop_last());
        assert(line_ink(front + back) =~= line_ink(front) + line_ink(back));
    }
}

/// Texts that each hold what the tokens of a line leave hold, together, what
/// all the tokens leave.
proof fn lemma_all_ink(texts: Seq<Seq<char>>, lines: Seq<LineModel>)
    requires
        texts.len() == lines.len(),
        forall|i: int| 0 <= i < lines.len() ==> ink(#[trigger] texts[i]) == line_ink(lines[i]),
    ensures
        all_ink(texts) == line_ink(tokens_of(lines)),
    decreases lines.len(),
{
    if lines.len() > 0 {
        let front = texts.drop_last();
        assert forall|i: int| 0 <= i < front.len() implies ink(#[trigger] front[i]) == line_ink(
            lines.drop_last()[i],
        ) by {
            assert(front[i] == texts[i]);
            assert(lines.drop_last()[i] == lines[i]);
        }
        lemma_all_ink(front, lines.drop_last());
        lemma_line_ink_concat(tokens_of(lines.drop_last()), lines.last());
        assert(texts.last() == texts[texts.len() - 1]);
        assert(lines.last() == lines[lines.len() - 1]);
    }
}

/// Formatting keeps the tokens and changes layout only. The normalised lines
/// hold the tokens of the document, all of them and in order; every one of
/// them is rendered to one line of text; and the rendered lines, their spaces
/// and tabs taken out and put end to end, are what the tokens of the document
/// leave, in their order.
pub proof fn lemma_format_keeps_tokens(raw: Seq<LineModel>)
    requires
        lines_wf(raw),
    ensures
        tokens_of(normalized_lines(raw)) == tokens_of(raw),
        rendered_lines(normalized_lines(raw)).len() == normalized_lines(raw).len(),
        forall|i: int|
            0 <= i < normalized_lines(raw).len() ==> ink(
                #[trigger] rendered_lines(normalized_lines(raw))[i],
            ) == line_ink(normalized_lines(raw)[i]),
        all_ink(rendered_lines(normalized_lines(raw))) == line_ink(tokens_of(raw)),
{
    let lines = normalized_lines(raw);
    lemma_normalized_lines_tokens(raw);
    lemma_normalized_lines_wf(raw);
    lemma_rendered_lines_len(lines);
    assert forall|i: int| 0 <= i < lines.len() implies ink(#[trigger] rendered_lines(lines)[i])
        == line_ink(lines[i]) by {
        lemma_rendered_lines_ink(lines, i);
    }
    lemma_all_ink(rendered_lines(lines), lines);
}

} // verus!
