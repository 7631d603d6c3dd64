//! Formatting again: the text of a formatted document, parsed and formatted
//! once more, is the same text.
//!
//! A parser that reads the formatted text back finds the normalised lines,
//! with comment bodies that differ from the ones it found the first time by
//! the white space around them at most. `tidied` stands for such a reading:
//! the normalised lines with every comment body trimmed.

use vstd::prelude::*;
use crate::document::{formatted_text, rendered_blocks};
use crate::normalize::{attach_comment, fuses_at, lemma_normalize_idempotent, lemma_split_nonempty,
    normalized_line, normalized_lines, split_statements};
use crate::plan::{line_widths, planned, token_widths, Widths};
use crate::render::{comment_indented, has_directive, line_parts, line_text, part_text,
    rendered_block, token_text};
use crate::segment::{opens_block, segmented};
use crate::text::{lemma_trimmed_idempotent, trimmed};
use crate::token::{BlockModel, LineModel, TokenKind, TokenModel};

verus! {

/// The token with its body trimmed, if it is a comment.
pub open spec fn tidied_token(token: TokenModel) -> TokenModel {
    match token {
        TokenModel::Comment(body) => TokenModel::Comment(trimmed(body)),
        _ => token,
    }
}

/// The line with every comment body trimmed.
pub open spec fn tidied_line(line: LineModel) -> LineModel {
    Seq::new(line.len(), |k: int| tidied_token(line[k]))
}

/// The lines with every comment body trimmed.
pub open spec fn tidied(lines: Seq<LineModel>) -> Seq<LineModel> {
    Seq::new(lines.len(), |i: int| tidied_line(lines[i]))
}

/// The blocks with every comment body trimmed.
pub open spec fn tidied_blocks(blocks: Seq<BlockModel>) -> Seq<BlockModel> {
    Seq::new(blocks.len(), |b: int| tidied(blocks[b]))
}

/// Trimming a comment's body changes neither the kind of the token, nor the
/// widths it asks for, nor its text.
pub proof fn lemma_tidied_token(token: TokenModel, widths: Widths)
    ensures
        tidied_token(token).kind() == token.kind(),
        tidied_token(token).wf() == token.wf(),
        token_widths(tidied_token(token)) == token_widths(token),
        token_text(tidied_token(token), widths) == token_text(token, widths),
{
    match token {
        TokenModel::Comment(body) => {
            lemma_trimmed_idempotent(body);
        },
        _ => {},
    }
}

/// Splitting sees kinds only: it commutes with trimming the comments.
pub proof fn lemma_tidied_split(tokens: LineModel)
    ensures
        split_statements(tidied_line(tokens)) == tidied(split_statements(tokens)),
    decreases tokens.len(),
{
    let tidy = tidied_line(tokens);
    if tokens.len() == 0 {
        assert(split_statements(tidy) =~= tidied(split_statements(tokens)));
    } else {
        assert(fuses_at(tidy, 0) == fuses_at(tokens, 0)) by {
            lemma_tidied_token(tokens[0], Widths::zero());
            if tokens.len() > 1 {
                lemma_tidied_token(tokens[1], Widths::zero());
            }
        }
        let step: int = if fuses_at(tokens, 0) { 2 } else { 1 };
        lemma_tidied_split(tokens.skip(step));
        assert(tidy.skip(step) =~= tidied_line(tokens.skip(step)));
        assert(tidy.take(step) =~= tidied_line(tokens.take(step)));
        assert(split_statements(tidy) =~= tidied(split_statements(tokens)));
    }
}

/// Normalising a line commutes with trimming the comments.
pub proof fn lemma_tidied_normalized_line(raw: LineModel)
    ensures
        normalized_line(tidied_line(raw)) == tidied(normalized_line(raw)),
{
    let tidy = tidied_line(raw);
    if raw.len() <= 1 {
        assert(seq![tidy] =~= tidied(seq![raw]));
    } else {
        lemma_tidied_token(raw.last(), Widths::zero());
        assert(tidy.last() == tidied_token(raw.last()));
        if raw.last().kind() == TokenKind::Comment {
            let body = raw.drop_last();
            lemma_tidied_split(body);
            lemma_split_nonempty(body);
            assert(tidy.drop_last() =~= tidied_line(body));
            let lines = split_statements(body);
            assert(tidied(lines).last() == tidied_line(lines.last()));
            assert(tidied_line(lines.last()).push(tidy.last()) =~= tidied_line(
                lines.last().push(raw.last()),
            ));
            assert(attach_comment(tidied(lines), tidy.last()) =~= tidied(
                attach_comment(lines, raw.last()),
            ));
        } else {
            lemma_tidied_split(raw);
        }
    }
}

/// Normalising a document commutes with trimming the comments.
pub proof fn lemma_tidied_normalized_lines(raw: Seq<LineModel>)
    ensures
        normalized_lines(tidied(raw)) == tidied(normalized_lines(raw)),
    decreases raw.len(),
{
    if raw.len() == 0 {
        assert(normalized_lines(tidied(raw)) =~= tidied(normalized_lines(raw)));
    } else {
        lemma_tidied_normalized_lines(raw.drop_last());
        lemma_tidied_normalized_line(raw.last());
        assert(tidied(raw).drop_last() =~= tidied(raw.drop_last()));
        assert(tidied(raw).last() == tidied_line(raw.last()));
        assert(tidied(normalized_lines(raw.drop_last())) + tidied(normalized_line(raw.last()))
            =~= tidied(normalized_lines(raw)));
    }
}

/// Whether a line opens a block does not depend on comment bodies.
pub proof fn lemma_tidied_opens_block(line: LineModel)
    ensures
        opens_block(tidied_line(line)) == opens_block(line),
{
    if line.len() > 0 {
        lemma_tidied_token(line[0], Widths::zero());
    }
}

/// Segmenting commutes with trimming the comments.
pub proof fn lemma_tidied_segmented(lines: Seq<LineModel>)
    ensures
        segmented(tidied(lines)) == tidied_blocks(segmented(lines)),
    decreases lines.len(),
{
    if lines.len() == 0 {
        assert(segmented(tidied(lines)) =~= tidied_blocks(segmented(lines)));
    } else {
        lemma_tidied_segmented(lines.drop_last());
        lemma_tidied_opens_block(lines.last());
        assert(tidied(lines).drop_last() =~= tidied(lines.drop_last()));
        assert(tidied(lines).last() == tidied_line(lines.last()));
        let before = segmented(lines.drop_last());
        if before.len() == 0 || opens_block(lines.last()) {
            assert(tidied(seq![lines.last()]) =~= seq![tidied_line(lines.last())]);
            assert(tidied_blocks(before).push(seq![tidied_line(lines.last())]) =~= tidied_blocks(
                before.push(seq![lines.last()]),
            ));
        } else {
            assert(tidied_blocks(before).last() == tidied(before.last()));
            assert(tidied(before.last()).push(tidied_line(lines.last())) =~= tidied(
                before.last().push(lines.last()),
            ));
            assert(tidied_blocks(before).drop_last().push(
                tidied(before.last().push(lines.last())),
            ) =~= tidied_blocks(before.drop_last().push(before.last().push(lines.last()))));
        }
    }
}

/// The widths a line asks for do not depend on comment bodies.
pub proof fn lemma_tidied_line_widths(line: LineModel)
    ensures
        line_widths(tidied_line(line)) == line_widths(line),
    decreases line.len(),
{
    if line.len() > 0 {
        lemma_tidied_line_widths(line.drop_last());
        lemma_tidied_token(line.last(), Widths::zero());
        assert(tidied_line(line).drop_last() =~= tidied_line(line.drop_last()));
    }
}

/// The plan of a block does not depend on comment bodies.
pub proof fn lemma_tidied_planned(block: BlockModel)
    ensures
        planned(tidied(block)) == planned(block),
    decreases block.len(),
{
    if block.len() > 0 {
        lemma_tidied_planned(block.drop_last());
        lemma_tidied_line_widths(block.last());
        assert(tidied(block).drop_last() =~= tidied(block.drop_last()));
    }
}

/// Whether a line holds a directive does not depend on comment bodies.
pub proof fn lemma_tidied_has_directive(line: LineModel)
    ensures
        has_directive(tidied_line(line)) == has_directive(line),
{
    let tidy = tidied_line(line);
    if has_directive(line) {
        let k = choose|k: int|
            0 <= k < line.len() && (#[trigger] line[k]).kind() == TokenKind::Directive;
        lemma_tidied_token(line[k], Widths::zero());
        assert(tidy[k].kind() == TokenKind::Directive);
    }
    if has_directive(tidy) {
        let k = choose|k: int|
            0 <= k < tidy.len() && (#[trigger] tidy[k]).kind() == TokenKind::Directive;
        lemma_tidied_token(line[k], Widths::zero());
        assert(line[k].kind() == TokenKind::Directive);
    }
}

/// The text of a line depends on comment bodies through their trimmed form
/// only.
pub proof fn lemma_tidied_line_text(line: LineModel, widths: Widths, indented: bool)
    ensures
        line_text(tidied_line(line), widths, indented) == line_text(line, widths, indented),
{
    let tidy = tidied_line(line);
    assert forall|k: int| 0 <= k < line.len() implies part_text(tidy, k, widths, indented)
        == part_text(line, k, widths, indented) by {
        lemma_tidied_token(line[k], widths);
    }
    assert(line_parts(tidy, widths, indented) =~= line_parts(line, widths, indented));
}

/// The text of a block depends on comment bodies through their trimmed form
/// only.
pub proof fn lemma_tidied_rendered_block(block: BlockModel)
    ensures
        rendered_block(tidied(block)) == rendered_block(block),
{
    let tidy = tidied(block);
    lemma_tidied_planned(block);
    assert forall|i: int| 0 <= i < block.len() implies line_text(
        tidy[i],
        planned(tidy),
        comment_indented(tidy, i),
    ) == line_text(block[i], planned(block), comment_indented(block, i)) by {
        if i > 0 {
            lemma_tidied_has_directive(block[i - 1]);
        }
        lemma_tidied_line_text(block[i], planned(block), comment_indented(block, i));
    }
    assert(rendered_block(tidy) =~= rendered_block(block));
}

/// The text of blocks depends on comment bodies through their trimmed form
/// only.
pub proof fn lemma_tidied_rendered_blocks(blocks: Seq<BlockModel>)
    ensures
        rendered_blocks(tidied_blocks(blocks)) == rendered_blocks(blocks),
    decreases blocks.len(),
{
    if blocks.len() > 0 {
        lemma_tidied_rendered_blocks(blocks.drop_last());
        lemma_tidied_rendered_block(blocks.last());
        assert(tidied_blocks(blocks).drop_last() =~= tidied_blocks(blocks.drop_last()));
    }
}

/// The formatted text depends on comment bodies through their trimmed form
/// only.
pub proof fn lemma_tidied_formatted_text(raw: Seq<LineModel>)
    ensures
        formatted_text(tidied(raw)) == formatted_text(raw),
{
    lemma_tidied_normalized_lines(raw);
    lemma_tidied_segmented(normalized_lines(raw));
    lemma_tidied_rendered_blocks(segmented(normalized_lines(raw)));
}

/// Formatting is idempotent. The lines that formatting writes, read back
/// with their comment bodies trimmed, are formatted to the text they were
/// read from.
pub proof fn lemma_reformat_fixed(raw: Seq<LineModel>)
    ensures
        formatted_text(tidied(normalized_lines(raw))) == formatted_text(raw),
        formatted_text(normalized_lines(raw)) == formatted_text(raw),
{
    lemma_normalize_idempotent(raw);
    lemma_tidied_formatted_text(normalized_lines(raw));
}

} // verus!
