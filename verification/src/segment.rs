//! The block segmenter: normalised lines grouped into alignment blocks.

use vstd::prelude::*;
use crate::token::{line_wf, lines_wf, Block, BlockModel, Line, LineModel, TokenKind};

verus! {

/// A blank line and a line that begins with a label each open a block.
pub open spec fn opens_block(line: LineModel) -> bool {
    line.len() == 0 || line[0].kind() == TokenKind::Label
}

/// The blocks of a document. The first line opens the first block; after
/// that a line joins the block before it unless it opens one of its own.
pub open spec fn segmented(lines: Seq<LineModel>) -> Seq<BlockModel>
    decreases lines.len(),
{
    if lines.len() == 0 {
        Seq::empty()
    } else {
        let before = segmented(lines.drop_last());
        if before.len() == 0 || opens_block(lines.last()) {
            before.push(seq![lines.last()])
        } else {
            before.drop_last().push(before.last().push(lines.last()))
        }
    }
}

/// The lines of the blocks, one block after the other.
pub open spec fn concatenated(blocks: Seq<BlockModel>) -> Seq<LineModel>
    decreases blocks.len(),
{
    if blocks.len() == 0 {
        Seq::empty()
    } else {
        concatenated(blocks.drop_last()) + blocks.last()
    }
}

/// What makes a sequence of blocks a segmentation: no block is empty, every
/// block but the first begins with a line that opens a block, and no other
/// line does.
pub open spec fn well_segmented(blocks: Seq<BlockModel>) -> bool {
    &&& forall|b: int| 0 <= b < blocks.len() ==> (#[trigger] blocks[b]).len() > 0
    &&& forall|b: int| 0 < b < blocks.len() ==> opens_block((#[trigger] blocks[b])[0])
    &&& forall|b: int, i: int|
        0 <= b < blocks.len() && 0 < i < blocks[b].len() ==> !opens_block(
            #[trigger] blocks[b][i],
        )
}

/// Whether the line opens a block.
pub fn line_opens_block(line: &Line) -> (opens: bool)
    ensures
        opens == opens_block(line.deep_view()),
{
    line.len() == 0 || line[0].kind() == TokenKind::Label
}

/// Splits the lines of a document into its blocks.
pub fn segment(lines: &Vec<Line>) -> (blocks: Vec<Block>)
    ensures
        blocks.deep_view() == segmented(lines.deep_view()),
        well_segmented(blocks.deep_view()),
        concatenated(blocks.deep_view()) == lines.deep_view(),
{
    let ghost model = lines.deep_view();
    proof {
        lemma_segmented_well(model);
        lemma_segmented_concatenated(model);
    }
    let mut blocks: Vec<Block> = Vec::new();
    if lines.len() == 0 {
        assert(blocks.deep_view() =~= Seq::<BlockModel>::empty());
        return blocks;
    }
    let mut current: Block = Vec::new();
    let first: Line = lines[0].clone();
    assert(first.deep_view() =~= model[0]);
    current.push(first);
    let mut i: usize = 1;
    proof {
        assert(model.take(1).drop_last() =~= Seq::<LineModel>::empty());
        assert(segmented(model.take(1).drop_last()).len() == 0);
        assert(model.take(1).last() == model[0]);
        assert(current.deep_view() =~= seq![model[0]]);
        assert(blocks.deep_view() =~= Seq::<BlockModel>::empty());
        assert(blocks.deep_view().push(current.deep_view()) =~= segmented(model.take(1)));
    }
    while i < lines.len()
        invariant
            1 <= i <= lines.len(),
            model == lines.deep_view(),
            blocks.deep_view().push(current.deep_view()) == segmented(model.take(i as int)),
        decreases lines.len() - i,
    {
        let ghost closed = blocks.deep_view();
        let ghost open = current.deep_view();
        let line: Line = lines[i].clone();
        proof {
            assert(line.deep_view() =~= model[i as int]);
            let upto = model.take(i + 1);
            assert(upto.drop_last() =~= model.take(i as int));
            assert(upto.last() == line.deep_view());
            assert(closed.push(open).drop_last() =~= closed);
        }
        if line_opens_block(&line) {
            blocks.push(current);
            current = Vec::new();
            current.push(line);
            proof {
                assert(blocks.deep_view() =~= closed.push(open));
                assert(current.deep_view() =~= seq![line.deep_view()]);
            }
        } else {
            current.push(line);
            proof {
                assert(current.deep_view() =~= open.push(line.deep_view()));
            }
        }
        i = i + 1;
    }
    proof {
        assert(model.take(lines.len() as int) =~= model);
    }
    let ghost closed = blocks.deep_view();
    blocks.push(current);
    assert(blocks.deep_view() =~= closed.push(current.deep_view()));
    blocks
}

/// The blocks of a document, put back together, are the document.
pub proof fn lemma_segmented_concatenated(lines: Seq<LineModel>)
    ensures
        concatenated(segmented(lines)) == lines,
    decreases lines.len(),
{
    if lines.len() > 0 {
        let before = segmented(lines.drop_last());
        lemma_segmented_concatenated(lines.drop_last());
        if before.len() == 0 || opens_block(lines.last()) {
            assert(before.push(seq![lines.last()]).drop_last() =~= before);
            assert(lines.drop_last() + seq![lines.last()] =~= lines);
        } else {
            let grown = before.last().push(lines.last());
            assert(before.drop_last().push(grown).drop_last() =~= before.drop_last());
            assert(concatenated(before.drop_last()) + grown =~= (concatenated(
                before.drop_last(),
            ) + before.last()).push(lines.last()));
            assert(lines.drop_last().push(lines.last()) =~= lines);
        }
    }
}

/// The blocks of a document are well segmented.
pub proof fn lemma_segmented_well(lines: Seq<LineModel>)
    ensures
        well_segmented(segmented(lines)),
        lines.len() > 0 ==> segmented(lines).len() > 0,
    decreases lines.len(),
{
    if lines.len() > 0 {
        lemma_segmented_well(lines.drop_last());
    }
}

/// A part of a document that begins with a line that opens a block is
/// segmented on its own, whatever stands before it.
pub proof fn lemma_segmented_append(front: Seq<LineModel>, back: Seq<LineModel>)
    requires
        back.len() == 0 || opens_block(back[0]),
    ensures
        segmented(front + back) == segmented(front) + segmented(back),
    decreases back.len(),
{
    if back.len() == 0 {
        assert(front + back =~= front);
        assert(segmented(front) + segmented(back) =~= segmented(front));
    } else {
        let whole = front + back;
        assert(whole.drop_last() =~= front + back.drop_last());
        assert(whole.last() == back.last());
        if back.len() == 1 {
            assert(back.drop_last() =~= Seq::<LineModel>::empty());
            assert(front + back.drop_last() =~= front);
            assert(segmented(back.drop_last()).len() == 0);
            assert(segmented(back) =~= seq![seq![back.last()]]);
            assert(segmented(whole) =~= segmented(front) + segmented(back));
        } else {
            assert(back.drop_last()[0] == back[0]);
            lemma_segmented_append(front, back.drop_last());
            lemma_segmented_well(back.drop_last());
            let tail = segmented(back.drop_last());
            assert(tail.len() > 0);
            assert(segmented(whole) =~= segmented(front) + segmented(back));
        }
    }
}

/// The blocks of a document hold well-formed tokens if the document does.
pub proof fn lemma_segmented_wf(lines: Seq<LineModel>)
    requires
        lines_wf(lines),
    ensures
        forall|b: int| 0 <= b < segmented(lines).len() ==> lines_wf(#[trigger] segmented(lines)[b]),
    decreases lines.len(),
{
    if lines.len() > 0 {
        let front = lines.drop_last();
        assert forall|i: int| 0 <= i < front.len() implies line_wf(#[trigger] front[i]) by {
            assert(front[i] == lines[i]);
        }
        lemma_segmented_wf(front);
        let before = segmented(front);
        let blocks = segmented(lines);
        assert(line_wf(lines.last()));
        assert forall|b: int| 0 <= b < blocks.len() implies lines_wf(#[trigger] blocks[b]) by {
            if b < blocks.len() - 1 {
                assert(blocks[b] == before[b]);
            } else if before.len() == 0 || opens_block(lines.last()) {
                assert(blocks[b] =~= seq![lines.last()]);
            } else {
                let grown = before.last().push(lines.last());
                assert(blocks[b] == grown);
                assert forall|i: int| 0 <= i < grown.len() implies line_wf(#[trigger] grown[i]) by {
                    if i < before.last().len() {
                        assert(grown[i] == before.last()[i]);
                    }
                }
            }
        }
    }
}

} // verus!
