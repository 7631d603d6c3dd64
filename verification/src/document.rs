//! The whole pipeline: a parsed document in, the formatted text out.

use vstd::prelude::*;
use vstd::string::*;
use crate::normalize::{lemma_normalize_idempotent, lemma_normalized_lines_wf, normalize_document,
    normalized_lines};
use crate::render::{render_block, rendered_block};
use crate::segment::{concatenated, lemma_segmented_append, lemma_segmented_concatenated,
    lemma_segmented_wf, opens_block, segment, segmented};
use crate::text::{join, joined};
use crate::token::{lines_wf, Block, BlockModel, Line, LineModel, Token};

verus! {

/// Why a document cannot be formatted.
#[derive(Clone, Copy, Debug, PartialEq, Eq, Structural)]
pub enum FormatError {
    /// Token `token` of raw line `line`, both counted from 0, is an
    /// instruction with more than two operands.
    TooManyOperands { line: usize, token: usize },
}

/// What formatting a document gives.
#[derive(Debug, PartialEq, Eq)]
pub enum Formatted {
    /// The document has no line at all: there is nothing to write.
    Empty,
    /// The formatted text, its lines separated by line feeds.
    Text(String),
}

/// The blocks as text, line by line, one block after the other.
pub open spec fn rendered_blocks(blocks: Seq<BlockModel>) -> Seq<Seq<char>>
    decreases blocks.len(),
{
    if blocks.len() == 0 {
        Seq::empty()
    } else {
        rendered_blocks(blocks.drop_last()) + rendered_block(blocks.last())
    }
}

/// Normalised lines as text: they are segmented, and each block is rendered
/// under its own plan.
pub open spec fn rendered_lines(lines: Seq<LineModel>) -> Seq<Seq<char>> {
    rendered_blocks(segmented(lines))
}

/// The formatted text of a document: its raw lines normalised, rendered, and
/// joined by line feeds, with none after the last.
pub open spec fn formatted_text(raw: Seq<LineModel>) -> Seq<char> {
    joined(rendered_lines(normalized_lines(raw)), seq!['\n'])
}

/// Position (`line`, `token`) holds the first malformed token of the
/// document, in reading order.
pub open spec fn first_malformed(raw: Seq<LineModel>, line: int, token: int) -> bool {
    &&& 0 <= line < raw.len()
    &&& 0 <= token < raw[line].len()
    &&& !raw[line][token].wf()
    &&& forall|k: int| 0 <= k < token ==> (#[trigger] raw[line][k]).wf()
    &&& forall|i: int, k: int|
        0 <= i < line && 0 <= k < raw[i].len() ==> (#[trigger] raw[i][k]).wf()
}

/// Whether the token is well formed.
pub fn token_is_well_formed(token: &Token) -> (ok: bool)
    ensures
        ok == token.deep_view().wf(),
{
    match token {
        Token::Instruction { operands, .. } => operands.len() <= 2,
        _ => true,
    }
}

/// Looks for the first malformed token of the document.
pub fn check_document(raw: &Vec<Line>) -> (r: Result<(), FormatError>)
    ensures
        r is Ok <==> lines_wf(raw.deep_view()),
        match r {
            Ok(_) => true,
            Err(FormatError::TooManyOperands { line, token }) => first_malformed(
                raw.deep_view(),
                line as int,
                token as int,
            ),
        },
{
    let ghost model = raw.deep_view();
    let mut i: usize = 0;
    while i < raw.len()
        invariant
            i <= raw.len(),
            model == raw.deep_view(),
            forall|a: int, k: int|
                0 <= a < i && 0 <= k < model[a].len() ==> (#[trigger] model[a][k]).wf(),
        decreases raw.len() - i,
    {
        let line: &Line = &raw[i];
        assert(model[i as int] == line.deep_view());
        let mut k: usize = 0;
        while k < line.len()
            invariant
                i < raw.len(),
                k <= line.len(),
                model == raw.deep_view(),
                model[i as int] == line.deep_view(),
                forall|a: int, j: int|
                    0 <= a < i && 0 <= j < model[a].len() ==> (#[trigger] model[a][j]).wf(),
                forall|j: int| 0 <= j < k ==> (#[trigger] model[i as int][j]).wf(),
            decreases line.len() - k,
        {
            assert(model[i as int][k as int] == line[k as int].deep_view());
            if !token_is_well_formed(&line[k]) {
                return Err(FormatError::TooManyOperands { line: i, token: k });
            }
            k = k + 1;
        }
        i = i + 1;
    }
    Ok(())
}

/// Renders normalised lines: block by block, each under its own plan.
pub fn render_lines(lines: &Vec<Line>) -> (out: Vec<String>)
    requires
        lines_wf(lines.deep_view()),
    ensures
        out.deep_view() == rendered_lines(lines.deep_view()),
{
    let blocks: Vec<Block> = segment(lines);
    let ghost model = blocks.deep_view();
    let mut out: Vec<String> = Vec::new();
    let mut b: usize = 0;
    proof {
        lemma_segmented_wf(lines.deep_view());
        assert(model.take(0) =~= Seq::<BlockModel>::empty());
        assert(out.deep_view() =~= Seq::<Seq<char>>::empty());
    }
    while b < blocks.len()
        invariant
            b <= blocks.len(),
            model == blocks.deep_view(),
            forall|j: int| 0 <= j < model.len() ==> lines_wf(#[trigger] model[j]),
            out.deep_view() == rendered_blocks(model.take(b as int)),
        decreases blocks.len() - b,
    {
        let ghost before = out.deep_view();
        assert(model[b as int] == blocks[b as int].deep_view());
        let mut texts: Vec<String> = render_block(&blocks[b]);
        let ghost added = texts.deep_view();
        out.append(&mut texts);
        proof {
            let upto = model.take(b + 1);
            assert(upto.drop_last() =~= model.take(b as int));
            assert(upto.last() == model[b as int]);
            assert(out.deep_view() =~= before + added);
        }
        b = b + 1;
    }
    proof {
        assert(model.take(blocks.len() as int) =~= model);
    }
    out
}

/// Formats a document. A document without lines gives `Empty`; one with a
/// malformed token is refused, with the place of the first such token; any
/// other gives its formatted text.
pub fn format_document(raw: &Vec<Line>) -> (r: Result<Formatted, FormatError>)
    ensures
        r is Ok <==> lines_wf(raw.deep_view()),
        match r {
            Ok(Formatted::Empty) => raw.len() == 0,
            Ok(Formatted::Text(text)) => raw.len() > 0 && text@ == formatted_text(raw.deep_view()),
            Err(FormatError::TooManyOperands { line, token }) => first_malformed(
                raw.deep_view(),
                line as int,
                token as int,
            ),
        },
{
    match check_document(raw) {
        Err(e) => {
            return Err(e);
        },
        Ok(_) => {},
    }
    if raw.len() == 0 {
        return Ok(Formatted::Empty);
    }
    let lines: Vec<Line> = normalize_document(raw);
    proof {
        lemma_normalized_lines_wf(raw.deep_view());
    }
    let texts: Vec<String> = render_lines(&lines);
    proof {
        reveal_strlit("\n");
        assert("\n"@ =~= seq!['\n']);
    }
    let text: String = join(&texts, "\n");
    Ok(Formatted::Text(text))
}

/// Blocks are rendered independently of one another.
pub proof fn lemma_rendered_blocks_concat(front: Seq<BlockModel>, back: Seq<BlockModel>)
    ensures
        rendered_blocks(front + back) == rendered_blocks(front) + rendered_blocks(back),
    decreases back.len(),
{
    if back.len() == 0 {
        assert(front + back =~= front);
        assert(rendered_blocks(front) + rendered_blocks(back) =~= rendered_blocks(front));
    } else {
        assert((front + back).drop_last() =~= front + back.drop_last());
        lemma_rendered_blocks_concat(front, back.drop_last());
        assert(rendered_blocks(front + back) =~= rendered_blocks(front) + rendered_blocks(back));
    }
}

/// Rendering gives one line of text for every line of the blocks.
pub proof fn lemma_rendered_blocks_len(blocks: Seq<BlockModel>)
    ensures
        rendered_blocks(blocks).len() == concatenated(blocks).len(),
    decreases blocks.len(),
{
    if blocks.len() > 0 {
        lemma_rendered_blocks_len(blocks.drop_last());
    }
}

/// Rendering gives one line of text for every line of the document.
pub proof fn lemma_rendered_lines_len(lines: Seq<LineModel>)
    ensures
        rendered_lines(lines).len() == lines.len(),
{
    lemma_rendered_blocks_len(segmented(lines));
    lemma_segmented_concatenated(lines);
}

/// A part of a document that begins with a line that opens a block is
/// rendered on its own, whatever stands before it, and what stands before it
/// is rendered as if nothing followed.
pub proof fn lemma_rendered_lines_append(front: Seq<LineModel>, back: Seq<LineModel>)
    requires
        back.len() == 0 || opens_block(back[0]),
    ensures
        rendered_lines(front + back) == rendered_lines(front) + rendered_lines(back),
{
    lemma_segmented_append(front, back);
    lemma_rendered_blocks_concat(segmented(front), segmented(back));
}

/// Blocks are isolated from one another. Take a document in three parts, the
/// second and the third each beginning with a line that opens a block.
/// Whatever the second part is replaced by, as long as it still begins with
/// such a line or is empty, the blocks of the first part and of the third
/// part, and with them their plans and their text, stay as they are: no
/// width computed in one part reaches another.
pub proof fn lemma_block_isolation(
    front: Seq<LineModel>,
    middle: Seq<LineModel>,
    other: Seq<LineModel>,
    back: Seq<LineModel>,
)
    requires
        middle.len() == 0 || opens_block(middle[0]),
        other.len() == 0 || opens_block(other[0]),
        back.len() == 0 || opens_block(back[0]),
    ensures
        segmented(front + middle + back) == segmented(front) + segmented(middle) + segmented(
            back,
        ),
        segmented(front + other + back) == segmented(front) + segmented(other) + segmented(back),
        rendered_lines(front + middle + back) == rendered_lines(front) + rendered_lines(middle)
            + rendered_lines(back),
        rendered_lines(front + other + back) == rendered_lines(front) + rendered_lines(other)
            + rendered_lines(back),
        rendered_lines(front + middle + back).take(front.len() as int) == rendered_lines(
            front + other + back,
        ).take(front.len() as int),
        rendered_lines(front + middle + back).skip((front.len() + middle.len()) as int)
            == rendered_lines(front + other + back).skip((front.len() + other.len()) as int),
{
    lemma_segmented_append(front, middle);
    lemma_segmented_append(front + middle, back);
    lemma_segmented_append(front, other);
    lemma_segmented_append(front + other, back);
    lemma_rendered_lines_append(front, middle);
    lemma_rendered_lines_append(front + middle, back);
    lemma_rendered_lines_append(front, other);
    lemma_rendered_lines_append(front + other, back);
    lemma_rendered_lines_len(front);
    lemma_rendered_lines_len(middle);
    lemma_rendered_lines_len(other);
    lemma_rendered_lines_len(back);
    let f = rendered_lines(front);
    let m = rendered_lines(middle);
    let o = rendered_lines(other);
    let b = rendered_lines(back);
    assert((f + m + b).take(front.len() as int) =~= f);
    assert((f + o + b).take(front.len() as int) =~= f);
    assert((f + m + b).skip((front.len() + middle.len()) as int) =~= b);
    assert((f + o + b).skip((front.len() + other.len()) as int) =~= b);
}

/// Formatting is idempotent on tokens: the normalised form of a document is
/// formatted to the same text as the document itself.
pub proof fn lemma_format_idempotent(raw: Seq<LineModel>)
    ensures
        normalized_lines(normalized_lines(raw)) == normalized_lines(raw),
        formatted_text(normalized_lines(raw)) == formatted_text(raw),
{
    lemma_normalize_idempotent(raw);
}

} // verus!
