//! The column planner: the three widths a block's instructions are aligned
//! to.

use vstd::prelude::*;
use crate::text::{byte_len, text_len};
use crate::token::{Block, BlockModel, Line, LineModel, Token, TokenModel};

verus! {

/// The column widths of a block, in bytes: the mnemonic, the first operand
/// and the second operand.
#[derive(Clone, Copy, Debug, PartialEq, Eq, Structural)]
pub struct ColumnPlan {
    pub mnemonic: usize,
    pub first: usize,
    pub second: usize,
}

/// Column widths as mathematical numbers.
pub struct Widths {
    pub mnemonic: nat,
    pub first: nat,
    pub second: nat,
}

impl View for ColumnPlan {
    type V = Widths;

    open spec fn view(&self) -> Widths {
        Widths {
            mnemonic: self.mnemonic as nat,
            first: self.first as nat,
            second: self.second as nat,
        }
    }
}

/// The larger of two numbers.
pub open spec fn larger(a: nat, b: nat) -> nat {
    if a >= b {
        a
    } else {
        b
    }
}

impl Widths {
    /// No width at all: the plan of a block without instructions.
    pub open spec fn zero() -> Widths {
        Widths { mnemonic: 0, first: 0, second: 0 }
    }

    /// The larger of the two in each column.
    pub open spec fn join(self, other: Widths) -> Widths {
        Widths {
            mnemonic: larger(self.mnemonic, other.mnemonic),
            first: larger(self.first, other.first),
            second: larger(self.second, other.second),
        }
    }

    /// Each column of `self` is at least as wide as that of `other`.
    pub open spec fn covers(self, other: Widths) -> bool {
        &&& self.mnemonic >= other.mnemonic
        &&& self.first >= other.first
        &&& self.second >= other.second
    }
}

/// The length of operand `k`, and 0 where there is none.
pub open spec fn operand_len(operands: Seq<Seq<char>>, k: int) -> nat {
    if 0 <= k < operands.len() {
        byte_len(operands[k])
    } else {
        0
    }
}

/// The widths one token asks for: those of its fields if it is an
/// instruction, none otherwise.
pub open spec fn token_widths(token: TokenModel) -> Widths {
    match token {
        TokenModel::Instruction { mnemonic, operands } => Widths {
            mnemonic: byte_len(mnemonic),
            first: operand_len(operands, 0),
            second: operand_len(operands, 1),
        },
        _ => Widths::zero(),
    }
}

/// The widths the tokens of a line ask for.
pub open spec fn line_widths(line: LineModel) -> Widths
    decreases line.len(),
{
    if line.len() == 0 {
        Widths::zero()
    } else {
        line_widths(line.drop_last()).join(token_widths(line.last()))
    }
}

/// The plan of a block: in each column the largest width any of its
/// instructions asks for.
pub open spec fn planned(block: BlockModel) -> Widths
    decreases block.len(),
{
    if block.len() == 0 {
        Widths::zero()
    } else {
        planned(block.drop_last()).join(line_widths(block.last()))
    }
}

/// The larger of two lengths.
fn larger_of(a: usize, b: usize) -> (m: usize)
    ensures
        m == larger(a as nat, b as nat),
{
    if a >= b {
        a
    } else {
        b
    }
}

impl ColumnPlan {
    /// The plan with every width 0.
    pub fn empty() -> (plan: ColumnPlan)
        ensures
            plan@ == Widths::zero(),
    {
        ColumnPlan { mnemonic: 0, first: 0, second: 0 }
    }

    /// The plan widened, where needed, to hold the token.
    pub fn widened(self, token: &Token) -> (plan: ColumnPlan)
        ensures
            plan@ == self@.join(token_widths(token.deep_view())),
    {
        match token {
            Token::Instruction { mnemonic, operands } => {
                let first: usize = if operands.len() > 0 {
                    text_len(operands[0].as_str())
                } else {
                    0
                };
                let second: usize = if operands.len() > 1 {
                    text_len(operands[1].as_str())
                } else {
                    0
                };
                proof {
                    let model = operands.deep_view();
                    assert(model.len() == operands.len());
                    if operands.len() > 0 {
                        assert(model[0] == operands[0]@);
                    }
                    if operands.len() > 1 {
                        assert(model[1] == operands[1]@);
                    }
                }
                ColumnPlan {
                    mnemonic: larger_of(self.mnemonic, text_len(mnemonic.as_str())),
                    first: larger_of(self.first, first),
                    second: larger_of(self.second, second),
                }
            },
            _ => self,
        }
    }

    /// The plan widened to hold every token of the line.
    pub fn widened_by_line(self, line: &Line) -> (plan: ColumnPlan)
        ensures
            plan@ == self@.join(line_widths(line.deep_view())),
    {
        let ghost model = line.deep_view();
        let mut plan: ColumnPlan = self;
        let mut i: usize = 0;
        proof {
            assert(model.take(0) =~= Seq::<TokenModel>::empty());
        }
        while i < line.len()
            invariant
                i <= line.len(),
                model == line.deep_view(),
                plan@ == self@.join(line_widths(model.take(i as int))),
            decreases line.len() - i,
        {
            plan = plan.widened(&line[i]);
            proof {
                let upto = model.take(i + 1);
                assert(upto.drop_last() =~= model.take(i as int));
                assert(upto.last() == line[i as int].deep_view());
            }
            i = i + 1;
        }
        proof {
            assert(model.take(line.len() as int) =~= model);
        }
        plan
    }
}

/// Computes the plan of a block.
pub fn column_plan(block: &Block) -> (plan: ColumnPlan)
    ensures
        plan@ == planned(block.deep_view()),
{
    let ghost model = block.deep_view();
    let mut plan: ColumnPlan = ColumnPlan::empty();
    let mut i: usize = 0;
    proof {
        assert(model.take(0) =~= Seq::<LineModel>::empty());
    }
    while i < block.len()
        invariant
            i <= block.len(),
            model == block.deep_view(),
            plan@ == planned(model.take(i as int)),
        decreases block.len() - i,
    {
        plan = plan.widened_by_line(&block[i]);
        proof {
            let upto = model.take(i + 1);
            assert(upto.drop_last() =~= model.take(i as int));
            assert(upto.last() == block[i as int].deep_view());
        }
        i = i + 1;
    }
    proof {
        assert(model.take(block.len() as int) =~= model);
    }
    plan
}

/// The widths of a line hold each of its tokens.
pub proof fn lemma_line_widths_cover(line: LineModel, k: int)
    requires
        0 <= k < line.len(),
    ensures
        line_widths(line).covers(token_widths(line[k])),
    decreases line.len(),
{
    if k < line.len() - 1 {
        lemma_line_widths_cover(line.drop_last(), k);
    }
}

/// The plan of a block holds each of its tokens.
pub proof fn lemma_planned_covers(block: BlockModel, i: int, k: int)
    requires
        0 <= i < block.len(),
        0 <= k < block[i].len(),
    ensures
        planned(block).covers(token_widths(block[i][k])),
    decreases block.len(),
{
    if i < block.len() - 1 {
        lemma_planned_covers(block.drop_last(), i, k);
    } else {
        lemma_line_widths_cover(block[i], k);
    }
}

/// The three columns of a plan.
pub enum Column {
    Mnemonic,
    First,
    Second,
}

impl Widths {
    /// The width of one column.
    pub open spec fn of(self, column: Column) -> nat {
        match column {
            Column::Mnemonic => self.mnemonic,
            Column::First => self.first,
            Column::Second => self.second,
        }
    }
}

/// Some token of the line asks for the width `w` in the column.
pub open spec fn line_asks(line: LineModel, column: Column, w: nat) -> bool {
    exists|k: int| 0 <= k < line.len() && token_widths(#[trigger] line[k]).of(column) == w
}

/// Some token of the block asks for the width `w` in the column.
pub open spec fn block_asks(block: BlockModel, column: Column, w: nat) -> bool {
    exists|i: int| 0 <= i < block.len() && line_asks(#[trigger] block[i], column, w)
}

/// Each width of a line is 0 or the width that one of its tokens asks for.
pub proof fn lemma_line_widths_attained(line: LineModel, column: Column)
    ensures
        line_widths(line).of(column) == 0 || line_asks(
            line,
            column,
            line_widths(line).of(column),
        ),
    decreases line.len(),
{
    if line.len() > 0 {
        let front = line.drop_last();
        lemma_line_widths_attained(front, column);
        let w = line_widths(line).of(column);
        if w != 0 {
            if w == token_widths(line.last()).of(column) {
                assert(line[line.len() - 1] == line.last());
            } else {
                assert(w == line_widths(front).of(column));
                let k = choose|k: int|
                    0 <= k < front.len() && token_widths(#[trigger] front[k]).of(column) == w;
                assert(line[k] == front[k]);
            }
        }
    }
}

/// No width of a plan is larger than needed: each is 0 or the width that one
/// of the block's tokens asks for.
pub proof fn lemma_planned_attained(block: BlockModel, column: Column)
    ensures
        planned(block).of(column) == 0 || block_asks(block, column, planned(block).of(column)),
    decreases block.len(),
{
    if block.len() > 0 {
        let front = block.drop_last();
        lemma_planned_attained(front, column);
        lemma_line_widths_attained(block.last(), column);
        let w = planned(block).of(column);
        if w != 0 {
            if w == line_widths(block.last()).of(column) {
                assert(block[block.len() - 1] == block.last());
            } else {
                assert(w == planned(front).of(column));
                let i = choose|i: int|
                    0 <= i < front.len() && line_asks(#[trigger] front[i], column, w);
                assert(block[i] == front[i]);
            }
        }
    }
}

} // verus!
