//! Tokens as the parser hands them over, and their mathematical model.

use vstd::prelude::*;

verus! {

/// The four kinds of token a source line is made of.
#[derive(Clone, Copy, Debug, PartialEq, Eq, Structural)]
pub enum TokenKind {
    Label,
    Directive,
    Instruction,
    Comment,
}

/// A token of the source, with the text it was written with.
#[derive(Debug, PartialEq, Eq)]
pub enum Token {
    /// A label, colon included.
    Label(String),
    /// A directive with its arguments, as written.
    Directive(String),
    /// An instruction: its mnemonic and its operands in order.
    Instruction { mnemonic: String, operands: Vec<String> },
    /// A comment: the text after the comment marker.
    Comment(String),
}

/// A line of tokens: a physical line of the input, or a normalised line.
pub type Line = Vec<Token>;

/// The model of a [`Token`]: the same shape over sequences of characters.
pub enum TokenModel {
    Label(Seq<char>),
    Directive(Seq<char>),
    Instruction { mnemonic: Seq<char>, operands: Seq<Seq<char>> },
    Comment(Seq<char>),
}

/// The model of a line.
pub type LineModel = Seq<TokenModel>;

/// A block: consecutive lines that are aligned together.
pub type Block = Vec<Line>;

/// The model of a block.
pub type BlockModel = Seq<LineModel>;

impl TokenModel {
    pub open spec fn kind(self) -> TokenKind {
        match self {
            TokenModel::Label(_) => TokenKind::Label,
            TokenModel::Directive(_) => TokenKind::Directive,
            TokenModel::Instruction { .. } => TokenKind::Instruction,
            TokenModel::Comment(_) => TokenKind::Comment,
        }
    }

    /// An instruction carries at most two operands; the other kinds are
    /// always well formed.
    pub open spec fn wf(self) -> bool {
        match self {
            TokenModel::Instruction { operands, .. } => operands.len() <= 2,
            _ => true,
        }
    }
}

impl DeepView for Token {
    type V = TokenModel;

    open spec fn deep_view(&self) -> TokenModel {
        match self {
            Token::Label(text) => TokenModel::Label(text@),
            Token::Directive(text) => TokenModel::Directive(text@),
            Token::Instruction { mnemonic, operands } => TokenModel::Instruction {
                mnemonic: mnemonic@,
                operands: operands.deep_view(),
            },
            Token::Comment(body) => TokenModel::Comment(body@),
        }
    }
}

/// Every token of the line is well formed.
pub open spec fn line_wf(line: LineModel) -> bool {
    forall|i: int| 0 <= i < line.len() ==> (#[trigger] line[i]).wf()
}

/// Every line of the document is well formed.
pub open spec fn lines_wf(lines: Seq<LineModel>) -> bool {
    forall|i: int| 0 <= i < lines.len() ==> line_wf(#[trigger] lines[i])
}

/// The tokens of the lines in reading order.
pub open spec fn tokens_of(lines: Seq<LineModel>) -> Seq<TokenModel>
    decreases lines.len(),
{
    if lines.len() == 0 {
        Seq::empty()
    } else {
        tokens_of(lines.drop_last()) + lines.last()
    }
}

/// The tokens of two runs of lines are those of the first, then those of the
/// second.
pub proof fn lemma_tokens_of_concat(front: Seq<LineModel>, back: Seq<LineModel>)
    ensures
        tokens_of(front + back) == tokens_of(front) + tokens_of(back),
    decreases back.len(),
{
    if back.len() == 0 {
        assert(front + back =~= front);
        assert(tokens_of(front) + tokens_of(back) =~= tokens_of(front));
    } else {
        assert((front + back).drop_last() =~= front + back.drop_last());
        lemma_tokens_of_concat(front, back.drop_last());
        assert(tokens_of(front + back) =~= tokens_of(front) + tokens_of(back));
    }
}

/// The operands that are there: an empty text stands for a missing operand,
/// and without a first operand there is no second.
pub open spec fn present_operands(first: Seq<char>, second: Seq<char>) -> Seq<Seq<char>> {
    if first.len() == 0 {
        Seq::empty()
    } else if second.len() == 0 {
        seq![first]
    } else {
        seq![first, second]
    }
}

impl Token {
    /// An instruction from its mnemonic and two operand texts, either of
    /// which is empty where the instruction has no such operand.
    pub fn instruction(mnemonic: String, first: String, second: String) -> (token: Token)
        ensures
            token.deep_view() == (TokenModel::Instruction {
                mnemonic: mnemonic@,
                operands: present_operands(first@, second@),
            }),
            token.deep_view().wf(),
    {
        let mut operands: Vec<String> = Vec::new();
        if !first.as_str().is_empty() {
            let has_second: bool = !second.as_str().is_empty();
            operands.push(first);
            if has_second {
                operands.push(second);
            }
        }
        assert(operands.deep_view() =~= present_operands(first@, second@));
        Token::Instruction { mnemonic, operands }
    }

    /// The kind of the token.
    pub fn kind(&self) -> (k: TokenKind)
        ensures
            k == self.deep_view().kind(),
    {
        match self {
            Token::Label(_) => TokenKind::Label,
            Token::Directive(_) => TokenKind::Directive,
            Token::Instruction { .. } => TokenKind::Instruction,
            Token::Comment(_) => TokenKind::Comment,
        }
    }
}

impl Clone for Token {
    /// A copy of the token with the same text.
    fn clone(&self) -> (copy: Token)
        ensures
            copy.deep_view() == self.deep_view(),
    {
        match self {
            Token::Label(text) => Token::Label(text.clone()),
            Token::Directive(text) => Token::Directive(text.clone()),
            Token::Instruction { mnemonic, operands } => {
                let copied: Vec<String> = operands.clone();
                assert(copied.deep_view() =~= operands.deep_view());
                Token::Instruction { mnemonic: mnemonic.clone(), operands: copied }
            },
            Token::Comment(body) => Token::Comment(body.clone()),
        }
    }
}

} // verus!
