//! The renderer: a normalised line, with the plan of its block, as text.

use vstd::prelude::*;
use vstd::string::*;
use crate::plan::{column_plan, lemma_planned_covers, planned, token_widths, ColumnPlan, Widths};
use crate::text::{byte_len, join, joined, lemma_byte_len_ascii, lemma_byte_len_concat,
    lemma_padded_len, pad, padded, spaces, text_len, trim, trimmed};
use crate::token::{line_wf, lines_wf, Block, BlockModel, Line, LineModel, Token, TokenKind,
    TokenModel};

verus! {

/// An instruction as text: the mnemonic padded to its column; then, after a
/// space, the first operand, if there is one, padded to its column; with two
/// operands the first carries a comma, which its column makes room for, and
/// the second follows after a space, padded to its column.
pub open spec fn instruction_text(
    mnemonic: Seq<char>,
    operands: Seq<Seq<char>>,
    widths: Widths,
) -> Seq<char> {
    let name = padded(mnemonic, widths.mnemonic);
    if operands.len() == 0 {
        name
    } else if operands.len() == 1 {
        name + seq![' '] + padded(operands[0], widths.first)
    } else {
        name + seq![' '] + padded(operands[0].push(','), widths.first + 1) + seq![' '] + padded(
            operands[1],
            widths.second,
        )
    }
}

/// A comment as text: the marker, a space, and the body without the white
/// space around it.
pub open spec fn comment_text(body: Seq<char>) -> Seq<char> {
    seq!['#', ' '] + trimmed(body)
}

/// A token as text. A label and a directive are written as they are, an
/// instruction after a tab.
pub open spec fn token_text(token: TokenModel, widths: Widths) -> Seq<char> {
    match token {
        TokenModel::Label(text) => text,
        TokenModel::Directive(text) => text,
        TokenModel::Instruction { mnemonic, operands } => seq!['\t'] + instruction_text(
            mnemonic,
            operands,
            widths,
        ),
        TokenModel::Comment(body) => comment_text(body),
    }
}

/// Whether one of the tokens of the line is a directive.
pub open spec fn has_directive(line: LineModel) -> bool {
    exists|k: int| 0 <= k < line.len() && (#[trigger] line[k]).kind() == TokenKind::Directive
}

/// Whether a comment that begins line `position` of the block gets a tab: not
/// on the first line of the block, and not under a line with a directive.
pub open spec fn comment_indented(block: BlockModel, position: int) -> bool {
    0 < position < block.len() && !has_directive(block[position - 1])
}

/// Token `k` of a line as it is written on that line: a comment that begins
/// the line gets a tab where `indented` says so.
pub open spec fn part_text(line: LineModel, k: int, widths: Widths, indented: bool) -> Seq<char> {
    if k == 0 && indented && line[k].kind() == TokenKind::Comment {
        seq!['\t'] + token_text(line[k], widths)
    } else {
        token_text(line[k], widths)
    }
}

/// The tokens of a line as they are written on it.
pub open spec fn line_parts(line: LineModel, widths: Widths, indented: bool) -> Seq<Seq<char>> {
    Seq::new(line.len(), |k: int| part_text(line, k, widths, indented))
}

/// A line as text: its tokens with one space between each two, and nothing
/// for a blank line.
pub open spec fn line_text(line: LineModel, widths: Widths, indented: bool) -> Seq<char> {
    joined(line_parts(line, widths, indented), seq![' '])
}

/// A block as text, line by line, under the plan of the block.
pub open spec fn rendered_block(block: BlockModel) -> Seq<Seq<char>> {
    Seq::new(
        block.len(),
        |i: int| line_text(block[i], planned(block), comment_indented(block, i)),
    )
}

/// Formats an instruction under the given plan.
pub fn format_instruction(mnemonic: &String, operands: &Vec<String>, plan: &ColumnPlan) -> (out:
    String)
    requires
        operands.len() <= 2,
        plan@.covers(
            token_widths(
                TokenModel::Instruction { mnemonic: mnemonic@, operands: operands.deep_view() },
            ),
        ),
    ensures
        out@ == instruction_text(mnemonic@, operands.deep_view(), plan@),
{
    let ghost model = operands.deep_view();
    let mut out: String = pad(mnemonic, plan.mnemonic);
    if operands.len() == 0 {
        return out;
    }
    assert(model[0] == operands[0]@);
    proof {
        reveal_strlit(" ");
        reveal_strlit(",");
        assert(" "@ =~= seq![' ']);
        assert(","@ =~= seq![',']);
    }
    out.append(" ");
    if operands.len() == 1 {
        let first: String = pad(&operands[0], plan.first);
        out.append(first.as_str());
        return out;
    }
    assert(model[1] == operands[1]@);
    // The comma fills the extra byte of its column: what is left to fill
    // is counted from the bare operand.
    let gap: usize = plan.first - text_len(operands[0].as_str());
    let filler: String = pad(&String::new(), gap);
    let second: String = pad(&operands[1], plan.second);
    let ghost name = out@;
    out.append(operands[0].as_str());
    out.append(",");
    out.append(filler.as_str());
    out.append(" ");
    out.append(second.as_str());
    proof {
        let with_comma = model[0].push(',');
        lemma_byte_len_concat(model[0], seq![',']);
        lemma_byte_len_ascii(',');
        assert(with_comma =~= model[0] + seq![',']);
        lemma_padded_len(with_comma, plan@.first + 1);
        lemma_padded_len(Seq::<char>::empty(), gap as nat);
        assert(filler@ =~= spaces(gap as nat));
        assert(out@ =~= name + model[0] + seq![','] + spaces(gap as nat) + seq![' '] + second@);
        assert(out@ =~= instruction_text(mnemonic@, model, plan@));
    }
    out
}

/// Whether the line holds a directive.
pub fn line_has_directive(line: &Line) -> (found: bool)
    ensures
        found == has_directive(line.deep_view()),
{
    let ghost model = line.deep_view();
    let mut k: usize = 0;
    while k < line.len()
        invariant
            k <= line.len(),
            model == line.deep_view(),
            forall|j: int| 0 <= j < k ==> (#[trigger] model[j]).kind() != TokenKind::Directive,
        decreases line.len() - k,
    {
        assert(model[k as int] == line[k as int].deep_view());
        if line[k].kind() == TokenKind::Directive {
            return true;
        }
        k = k + 1;
    }
    false
}

/// A plan that is wide enough for every instruction of the line.
pub open spec fn plan_holds_line(widths: Widths, line: LineModel) -> bool {
    forall|k: int| 0 <= k < line.len() ==> widths.covers(token_widths(#[trigger] line[k]))
}

/// Renders one token under the given plan.
pub fn render_token(token: &Token, plan: &ColumnPlan) -> (out: String)
    requires
        token.deep_view().wf(),
        plan@.covers(token_widths(token.deep_view())),
    ensures
        out@ == token_text(token.deep_view(), plan@),
{
    match token {
        Token::Label(text) => text.clone(),
        Token::Directive(text) => text.clone(),
        Token::Instruction { mnemonic, operands } => {
            let body: String = format_instruction(mnemonic, operands, plan);
            let mut out: String = String::new();
            out.append("\t");
            out.append(body.as_str());
            proof {
                reveal_strlit("\t");
                assert("\t"@ =~= seq!['\t']);
                assert(out@ =~= seq!['\t'] + body@);
            }
            out
        },
        Token::Comment(body) => {
            let inner: &str = trim(body.as_str());
            let mut out: String = String::new();
            out.append("# ");
            out.append(inner);
            proof {
                reveal_strlit("# ");
                assert("# "@ =~= seq!['#', ' ']);
                assert(out@ =~= seq!['#', ' '] + inner@);
            }
            out
        },
    }
}

/// Renders line `position` of the block under the given plan.
pub fn render_line(block: &Block, position: usize, plan: &ColumnPlan) -> (out: String)
    requires
        position < block.len(),
        line_wf(block.deep_view()[position as int]),
        plan_holds_line(plan@, block.deep_view()[position as int]),
    ensures
        out@ == line_text(
            block.deep_view()[position as int],
            plan@,
            comment_indented(block.deep_view(), position as int),
        ),
{
    let line: &Line = &block[position];
    let ghost model = line.deep_view();
    assert(model == block.deep_view()[position as int]);
    let mut indented: bool = false;
    if position > 0 {
        assert(block.deep_view()[position - 1] == block[position - 1].deep_view());
        indented = !line_has_directive(&block[position - 1]);
    }
    let mut parts: Vec<String> = Vec::new();
    let mut k: usize = 0;
    while k < line.len()
        invariant
            k <= line.len(),
            model == line.deep_view(),
            line_wf(model),
            plan_holds_line(plan@, model),
            parts.len() == k,
            forall|j: int| 0 <= j < k ==> parts[j]@ == part_text(model, j, plan@, indented),
        decreases line.len() - k,
    {
        assert(model[k as int] == line[k as int].deep_view());
        let written: String = render_token(&line[k], plan);
        if k == 0 && indented && line[k].kind() == TokenKind::Comment {
            let mut shifted: String = String::new();
            shifted.append("\t");
            shifted.append(written.as_str());
            proof {
                reveal_strlit("\t");
                assert("\t"@ =~= seq!['\t']);
                assert(shifted@ =~= seq!['\t'] + written@);
            }
            parts.push(shifted);
        } else {
            parts.push(written);
        }
        k = k + 1;
    }
    proof {
        reveal_strlit(" ");
        assert(" "@ =~= seq![' ']);
        assert(parts.deep_view() =~= line_parts(model, plan@, indented));
    }
    join(&parts, " ")
}

/// Renders a block: its plan is computed, then every line is rendered under
/// it.
pub fn render_block(block: &Block) -> (out: Vec<String>)
    requires
        lines_wf(block.deep_view()),
    ensures
        out.deep_view() == rendered_block(block.deep_view()),
{
    let ghost model = block.deep_view();
    let plan: ColumnPlan = column_plan(block);
    let mut out: Vec<String> = Vec::new();
    let mut i: usize = 0;
    while i < block.len()
        invariant
            i <= block.len(),
            model == block.deep_view(),
            lines_wf(model),
            plan@ == planned(model),
            out.len() == i,
            forall|j: int|
                0 <= j < i ==> out[j]@ == line_text(
                    model[j],
                    planned(model),
                    comment_indented(model, j),
                ),
        decreases block.len() - i,
    {
        proof {
            assert forall|k: int| 0 <= k < model[i as int].len() implies plan@.covers(
                token_widths(#[trigger] model[i as int][k]),
            ) by {
                lemma_planned_covers(model, i as int, k);
            }
        }
        let text: String = render_line(block, i, &plan);
        out.push(text);
        i = i + 1;
    }
    assert(out.deep_view() =~= rendered_block(model));
    out
}

/// Under a plan that holds it, an instruction fills its columns exactly: the
/// mnemonic column and one space before each operand column, the first of
/// which is one wider when a comma follows the operand. Instructions of one
/// block with as many operands are therefore equally long, and their operands
/// begin at the same offsets.
pub proof fn lemma_instruction_columns(
    mnemonic: Seq<char>,
    operands: Seq<Seq<char>>,
    widths: Widths,
)
    requires
        widths.covers(token_widths(TokenModel::Instruction { mnemonic, operands })),
    ensures
        byte_len(padded(mnemonic, widths.mnemonic)) == widths.mnemonic,
        operands.len() == 0 ==> byte_len(instruction_text(mnemonic, operands, widths))
            == widths.mnemonic,
        operands.len() == 1 ==> byte_len(instruction_text(mnemonic, operands, widths))
            == widths.mnemonic + 1 + widths.first,
        operands.len() >= 2 ==> byte_len(instruction_text(mnemonic, operands, widths))
            == widths.mnemonic + 1 + (widths.first + 1) + 1 + widths.second,
{
    let name = padded(mnemonic, widths.mnemonic);
    lemma_padded_len(mnemonic, widths.mnemonic);
    lemma_byte_len_ascii(' ');
    if operands.len() == 1 {
        let first = padded(operands[0], widths.first);
        lemma_padded_len(operands[0], widths.first);
        lemma_byte_len_concat(name, seq![' ']);
        lemma_byte_len_concat(name + seq![' '], first);
    } else if operands.len() >= 2 {
        let with_comma = operands[0].push(',');
        assert(with_comma =~= operands[0] + seq![',']);
        lemma_byte_len_concat(operands[0], seq![',']);
        lemma_byte_len_ascii(',');
        let first = padded(with_comma, widths.first + 1);
        let second = padded(operands[1], widths.second);
        lemma_padded_len(with_comma, widths.first + 1);
        lemma_padded_len(operands[1], widths.second);
        lemma_byte_len_concat(name, seq![' ']);
        lemma_byte_len_concat(name + seq![' '], first);
        lemma_byte_len_concat(name + seq![' '] + first, seq![' ']);
        lemma_byte_len_concat(name + seq![' '] + first + seq![' '], second);
    }
}

/// Instructions of one block are aligned: two lines of the block that each
/// hold one instruction, with as many operands as the other, are rendered
/// equally long, each column starting at the same offset in both.
pub proof fn lemma_block_aligned(block: BlockModel, i: int, j: int)
    requires
        0 <= i < block.len(),
        0 <= j < block.len(),
        block[i].len() == 1,
        block[j].len() == 1,
        block[i][0] is Instruction,
        block[j][0] is Instruction,
        block[i][0]->operands.len() == block[j][0]->operands.len(),
    ensures
        byte_len(rendered_block(block)[i]) == byte_len(rendered_block(block)[j]),
        byte_len(padded(block[i][0]->mnemonic, planned(block).mnemonic)) == byte_len(
            padded(block[j][0]->mnemonic, planned(block).mnemonic),
        ),
{
    let widths = planned(block);
    lemma_instruction_line(block, i);
    lemma_instruction_line(block, j);
    lemma_planned_covers(block, i, 0);
    lemma_planned_covers(block, j, 0);
    lemma_instruction_columns(block[i][0]->mnemonic, block[i][0]->operands, widths);
    lemma_instruction_columns(block[j][0]->mnemonic, block[j][0]->operands, widths);
    lemma_byte_len_ascii('\t');
    lemma_byte_len_concat(
        seq!['\t'],
        instruction_text(block[i][0]->mnemonic, block[i][0]->operands, widths),
    );
    lemma_byte_len_concat(
        seq!['\t'],
        instruction_text(block[j][0]->mnemonic, block[j][0]->operands, widths),
    );
}

/// A line that holds one instruction is rendered as a tab and the
/// instruction under the plan of its block.
pub proof fn lemma_instruction_line(block: BlockModel, i: int)
    requires
        0 <= i < block.len(),
        block[i].len() == 1,
        block[i][0] is Instruction,
    ensures
        rendered_block(block)[i] == seq!['\t'] + instruction_text(
            block[i][0]->mnemonic,
            block[i][0]->operands,
            planned(block),
        ),
{
    let parts = line_parts(block[i], planned(block), comment_indented(block, i));
    assert(parts[0] == token_text(block[i][0], planned(block)));
}

} // verus!
