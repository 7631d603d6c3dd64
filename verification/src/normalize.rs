//! The line normaliser: one statement per line, a label kept with the
//! directive that follows it, and a closing comment kept on its line.

use vstd::prelude::*;
use crate::token::{lemma_tokens_of_concat, line_wf, lines_wf, tokens_of, Line, LineModel,
    TokenKind, TokenModel};

verus! {

/// A label at position `i` directly followed by a directive.
pub open spec fn fuses_at(tokens: LineModel, i: int) -> bool {
    &&& 0 <= i
    &&& i + 1 < tokens.len()
    &&& tokens[i].kind() == TokenKind::Label
    &&& tokens[i + 1].kind() == TokenKind::Directive
}

/// The tokens walked left to right: a label and the directive after it make
/// one line, every other token a line of its own.
pub open spec fn split_statements(tokens: LineModel) -> Seq<LineModel>
    decreases tokens.len(),
{
    if tokens.len() == 0 {
        Seq::empty()
    } else if fuses_at(tokens, 0) {
        seq![tokens.take(2)] + split_statements(tokens.skip(2))
    } else {
        seq![tokens.take(1)] + split_statements(tokens.skip(1))
    }
}

/// The comment appended to the last of the lines.
pub open spec fn attach_comment(lines: Seq<LineModel>, comment: TokenModel) -> Seq<LineModel> {
    if lines.len() == 0 {
        seq![seq![comment]]
    } else {
        lines.drop_last().push(lines.last().push(comment))
    }
}

/// What one raw line becomes. A line of no token or one stays as it is. Of a
/// longer line a closing comment is set aside, the rest is split into
/// statements, and the comment joins the last of them.
pub open spec fn normalized_line(raw: LineModel) -> Seq<LineModel> {
    if raw.len() <= 1 {
        seq![raw]
    } else if raw.last().kind() == TokenKind::Comment {
        attach_comment(split_statements(raw.drop_last()), raw.last())
    } else {
        split_statements(raw)
    }
}

/// What a whole document becomes: its raw lines normalised one after the
/// other.
pub open spec fn normalized_lines(raw: Seq<LineModel>) -> Seq<LineModel>
    decreases raw.len(),
{
    if raw.len() == 0 {
        Seq::empty()
    } else {
        normalized_lines(raw.drop_last()) + normalized_line(raw.last())
    }
}

/// The shapes a normalised line can have: blank, one token, a label with its
/// directive, and either of the last two followed by a comment.
pub open spec fn is_canonical(line: LineModel) -> bool {
    ||| line.len() <= 1
    ||| line.len() == 2 && fuses_at(line, 0)
    ||| line.len() == 2 && line[1].kind() == TokenKind::Comment
    ||| line.len() == 3 && fuses_at(line, 0) && line[2].kind() == TokenKind::Comment
}

/// A non-empty run of tokens splits into at least one line.
pub proof fn lemma_split_nonempty(tokens: LineModel)
    requires
        tokens.len() > 0,
    ensures
        split_statements(tokens).len() > 0,
{
}

/// Normalises one raw line.
pub fn normalize_line(raw: &Line) -> (lines: Vec<Line>)
    ensures
        lines.deep_view() == normalized_line(raw.deep_view()),
        all_canonical(lines.deep_view()),
        tokens_of(lines.deep_view()) == raw.deep_view(),
{
    let ghost model = raw.deep_view();
    proof {
        lemma_normalized_line_canonical(model);
        lemma_normalized_line_tokens(model);
    }
    let mut lines: Vec<Line> = Vec::new();
    if raw.len() == 0 {
        let blank: Line = Vec::new();
        assert(blank.deep_view() =~= model);
        lines.push(blank);
        assert(lines.deep_view() =~= seq![model]);
        return lines;
    }
    if raw.len() == 1 {
        let mut line: Line = Vec::new();
        line.push(raw[0].clone());
        assert(line.deep_view() =~= model);
        lines.push(line);
        assert(lines.deep_view() =~= seq![model]);
        return lines;
    }
    let last: usize = raw.len() - 1;
    let trailing: bool = raw[last].kind() == TokenKind::Comment;
    let end: usize = if trailing { last } else { raw.len() };
    let ghost body = model.take(end as int);
    let ghost goal = normalized_line(model);
    proof {
        assert(model.last() == raw[last as int].deep_view());
        if trailing {
            assert(body =~= model.drop_last());
        } else {
            assert(body =~= model);
        }
        assert(body.skip(0) =~= body);
        assert(lines.deep_view() =~= Seq::<LineModel>::empty());
    }
    let mut i: usize = 0;
    while i < end
        invariant
            0 <= i <= end <= raw.len(),
            end >= 1,
            last + 1 == raw.len(),
            model == raw.deep_view(),
            body == model.take(end as int),
            trailing ==> end + 1 == raw.len(),
            goal == if trailing {
                attach_comment(split_statements(body), model[end as int])
            } else {
                split_statements(body)
            },
            i < end ==> lines.deep_view() + split_statements(body.skip(i as int))
                =~= split_statements(body),
            i == end ==> lines.deep_view() == goal,
        decreases end - i,
    {
        let ghost before = lines.deep_view();
        let ghost rest = body.skip(i as int);
        let mut line: Line = Vec::new();
        line.push(raw[i].clone());
        let mut next: usize = i + 1;
        assert(rest[0] == model[i as int]);
        if next < end && raw[i].kind() == TokenKind::Label && raw[next].kind()
            == TokenKind::Directive {
            assert(rest[1] == model[next as int]);
            line.push(raw[next].clone());
            next = next + 1;
            assert(fuses_at(rest, 0));
            assert(line.deep_view() =~= rest.take(2));
            assert(rest.skip(2) =~= body.skip(next as int));
        } else {
            assert(!fuses_at(rest, 0));
            assert(line.deep_view() =~= rest.take(1));
            assert(rest.skip(1) =~= body.skip(next as int));
        }
        let ghost statement = line.deep_view();
        assert(split_statements(rest) =~= seq![statement] + split_statements(
            body.skip(next as int),
        ));
        if next == end {
            assert(body.skip(end as int) =~= Seq::<TokenModel>::empty());
            assert(split_statements(body) =~= before.push(statement));
            if trailing {
                line.push(raw[last].clone());
                assert(line.deep_view() =~= statement.push(model[end as int]));
            }
        }
        lines.push(line);
        assert(lines.deep_view() =~= before.push(line.deep_view()));
        proof {
            if next == end {
                if trailing {
                    assert(before.push(statement).drop_last() =~= before);
                    assert(lines.deep_view() =~= goal);
                } else {
                    assert(lines.deep_view() =~= goal);
                }
            } else {
                assert(before.push(statement) + split_statements(body.skip(next as int))
                    =~= before + split_statements(rest));
            }
        }
        i = next;
    }
    lines
}

/// Normalises a document: every raw line in turn, the results in order.
pub fn normalize_document(raw: &Vec<Line>) -> (lines: Vec<Line>)
    ensures
        lines.deep_view() == normalized_lines(raw.deep_view()),
        all_canonical(lines.deep_view()),
        tokens_of(lines.deep_view()) == tokens_of(raw.deep_view()),
{
    let ghost model = raw.deep_view();
    proof {
        lemma_normalized_lines_canonical(model);
        lemma_normalized_lines_tokens(model);
    }
    let mut lines: Vec<Line> = Vec::new();
    let mut i: usize = 0;
    proof {
        assert(model.take(0) =~= Seq::<LineModel>::empty());
        assert(lines.deep_view() =~= Seq::<LineModel>::empty());
    }
    while i < raw.len()
        invariant
            i <= raw.len(),
            model == raw.deep_view(),
            lines.deep_view() == normalized_lines(model.take(i as int)),
        decreases raw.len() - i,
    {
        let ghost before = lines.deep_view();
        let mut more: Vec<Line> = normalize_line(&raw[i]);
        let ghost added = more.deep_view();
        lines.append(&mut more);
        proof {
            let upto = model.take(i + 1);
            assert(upto.drop_last() =~= model.take(i as int));
            assert(upto.last() == raw[i as int].deep_view());
            assert(lines.deep_view() =~= before + added);
        }
        i = i + 1;
    }
    proof {
        assert(model.take(raw.len() as int) =~= model);
    }
    lines
}

/// Splitting keeps tokens well formed.
pub proof fn lemma_split_wf(tokens: LineModel)
    requires
        line_wf(tokens),
    ensures
        lines_wf(split_statements(tokens)),
    decreases tokens.len(),
{
    if tokens.len() > 0 {
        let step: int = if fuses_at(tokens, 0) { 2 } else { 1 };
        let rest = tokens.skip(step);
        assert forall|k: int| 0 <= k < rest.len() implies (#[trigger] rest[k]).wf() by {
            assert(rest[k] == tokens[k + step]);
        }
        lemma_split_wf(rest);
        let head = tokens.take(step);
        assert forall|k: int| 0 <= k < head.len() implies (#[trigger] head[k]).wf() by {
            assert(head[k] == tokens[k]);
        }
        let lines = split_statements(tokens);
        assert forall|i: int| 0 <= i < lines.len() implies line_wf(#[trigger] lines[i]) by {
            if i > 0 {
                assert(lines[i] == split_statements(rest)[i - 1]);
            }
        }
    }
}

/// Normalising a line keeps tokens well formed.
pub proof fn lemma_normalized_line_wf(raw: LineModel)
    requires
        line_wf(raw),
    ensures
        lines_wf(normalized_line(raw)),
{
    if raw.len() <= 1 {
    } else if raw.last().kind() == TokenKind::Comment {
        let body = raw.drop_last();
        assert forall|k: int| 0 <= k < body.len() implies (#[trigger] body[k]).wf() by {
            assert(body[k] == raw[k]);
        }
        lemma_split_wf(body);
        let lines = split_statements(body);
        let out = attach_comment(lines, raw.last());
        assert forall|i: int| 0 <= i < out.len() implies line_wf(#[trigger] out[i]) by {
            if lines.len() > 0 && i < lines.len() - 1 {
                assert(out[i] == lines[i]);
            } else if lines.len() > 0 {
                let grown = lines.last().push(raw.last());
                assert(out[i] == grown);
                assert forall|k: int| 0 <= k < grown.len() implies (#[trigger] grown[k]).wf() by {
                    if k < lines.last().len() {
                        assert(grown[k] == lines.last()[k]);
                    }
                }
            }
        }
    } else {
        lemma_split_wf(raw);
    }
}

/// Normalising a document keeps tokens well formed.
pub proof fn lemma_normalized_lines_wf(raw: Seq<LineModel>)
    requires
        lines_wf(raw),
    ensures
        lines_wf(normalized_lines(raw)),
    decreases raw.len(),
{
    if raw.len() > 0 {
        let front = raw.drop_last();
        assert forall|i: int| 0 <= i < front.len() implies line_wf(#[trigger] front[i]) by {
            assert(front[i] == raw[i]);
        }
        lemma_normalized_lines_wf(front);
        lemma_normalized_line_wf(raw.last());
        let a = normalized_lines(front);
        let b = normalized_line(raw.last());
        assert forall|i: int| 0 <= i < (a + b).len() implies line_wf(#[trigger] (a + b)[i]) by {
            if i < a.len() {
                assert((a + b)[i] == a[i]);
            } else {
                assert((a + b)[i] == b[i - a.len()]);
            }
        }
    }
}

/// Every line of the lines is one of the shapes of a normalised line.
pub open spec fn all_canonical(lines: Seq<LineModel>) -> bool {
    forall|i: int| 0 <= i < lines.len() ==> is_canonical(#[trigger] lines[i])
}

/// Splitting gives single tokens and fused pairs, and loses no token.
pub proof fn lemma_split_shapes(tokens: LineModel)
    ensures
        tokens_of(split_statements(tokens)) == tokens,
        forall|i: int|
            0 <= i < split_statements(tokens).len() ==> {
                let line = #[trigger] split_statements(tokens)[i];
                line.len() == 1 || (line.len() == 2 && fuses_at(line, 0))
            },
    decreases tokens.len(),
{
    if tokens.len() > 0 {
        let step: int = if fuses_at(tokens, 0) { 2 } else { 1 };
        let head = tokens.take(step);
        let rest = tokens.skip(step);
        lemma_split_shapes(rest);
        let lines = split_statements(tokens);
        assert(lines =~= seq![head] + split_statements(rest));
        assert forall|i: int| 0 <= i < lines.len() implies {
            let line = #[trigger] lines[i];
            line.len() == 1 || (line.len() == 2 && fuses_at(line, 0))
        } by {
            if i > 0 {
                assert(lines[i] == split_statements(rest)[i - 1]);
            }
        }
        lemma_tokens_of_concat(seq![head], split_statements(rest));
        assert(seq![head].drop_last() =~= Seq::<LineModel>::empty());
        assert(tokens_of(seq![head].drop_last()) =~= Seq::<TokenModel>::empty());
        assert(tokens_of(seq![head]) =~= head);
        assert(head + rest =~= tokens);
    }
}

/// Normalising a line loses no token, adds none and keeps their order.
pub proof fn lemma_normalized_line_tokens(raw: LineModel)
    ensures
        tokens_of(normalized_line(raw)) == raw,
{
    if raw.len() <= 1 {
        assert(seq![raw].drop_last() =~= Seq::<LineModel>::empty());
        assert(tokens_of(seq![raw].drop_last()) =~= Seq::<TokenModel>::empty());
        assert(tokens_of(seq![raw]) =~= raw);
    } else if raw.last().kind() == TokenKind::Comment {
        let lines = split_statements(raw.drop_last());
        lemma_split_shapes(raw.drop_last());
        lemma_split_nonempty(raw.drop_last());
        let out = attach_comment(lines, raw.last());
        assert(out.drop_last() =~= lines.drop_last());
        assert(tokens_of(out) =~= tokens_of(lines).push(raw.last()));
        assert(raw.drop_last().push(raw.last()) =~= raw);
    } else {
        lemma_split_shapes(raw);
    }
}

/// Normalising a document loses no token, adds none and keeps their order.
pub proof fn lemma_normalized_lines_tokens(raw: Seq<LineModel>)
    ensures
        tokens_of(normalized_lines(raw)) == tokens_of(raw),
    decreases raw.len(),
{
    if raw.len() > 0 {
        lemma_normalized_lines_tokens(raw.drop_last());
        lemma_normalized_line_tokens(raw.last());
        lemma_tokens_of_concat(normalized_lines(raw.drop_last()), normalized_line(raw.last()));
    }
}

/// Every line that normalising a raw line gives is canonical.
pub proof fn lemma_normalized_line_canonical(raw: LineModel)
    ensures
        all_canonical(normalized_line(raw)),
        normalized_line(raw).len() >= 1,
{
    if raw.len() <= 1 {
    } else if raw.last().kind() == TokenKind::Comment {
        let lines = split_statements(raw.drop_last());
        lemma_split_shapes(raw.drop_last());
        lemma_split_nonempty(raw.drop_last());
        let out = attach_comment(lines, raw.last());
        assert forall|i: int| 0 <= i < out.len() implies is_canonical(#[trigger] out[i]) by {
            if i < lines.len() - 1 {
                assert(out[i] == lines[i]);
            } else {
                let grown = lines.last().push(raw.last());
                assert(out[i] == grown);
                assert(grown[0] == lines.last()[0]);
                if lines.last().len() == 2 {
                    assert(grown[1] == lines.last()[1]);
                }
            }
        }
    } else {
        lemma_split_shapes(raw);
        lemma_split_nonempty(raw);
    }
}

/// Every line of a normalised document is canonical.
pub proof fn lemma_normalized_lines_canonical(raw: Seq<LineModel>)
    ensures
        all_canonical(normalized_lines(raw)),
    decreases raw.len(),
{
    if raw.len() > 0 {
        lemma_normalized_lines_canonical(raw.drop_last());
        lemma_normalized_line_canonical(raw.last());
        let a = normalized_lines(raw.drop_last());
        let b = normalized_line(raw.last());
        assert forall|i: int| 0 <= i < (a + b).len() implies is_canonical(
            #[trigger] (a + b)[i],
        ) by {
            if i < a.len() {
                assert((a + b)[i] == a[i]);
            } else {
                assert((a + b)[i] == b[i - a.len()]);
            }
        }
    }
}

/// A canonical line is left as it is.
pub proof fn lemma_canonical_line_fixed(line: LineModel)
    requires
        is_canonical(line),
    ensures
        normalized_line(line) == seq![line],
{
    if line.len() <= 1 {
    } else {
        let body = if line.last().kind() == TokenKind::Comment {
            line.drop_last()
        } else {
            line
        };
        if body.len() == 1 {
            assert(!fuses_at(body, 0));
            assert(body.skip(1) =~= Seq::<TokenModel>::empty());
            assert(body.take(1) =~= body);
            assert(split_statements(body.skip(1)) =~= Seq::<LineModel>::empty());
            assert(split_statements(body) =~= seq![body]);
        } else {
            assert(body.len() == 2);
            assert(body[0] == line[0] && body[1] == line[1]);
            assert(fuses_at(body, 0));
            assert(body.skip(2) =~= Seq::<TokenModel>::empty());
            assert(body.take(2) =~= body);
            assert(split_statements(body.skip(2)) =~= Seq::<LineModel>::empty());
            assert(split_statements(body) =~= seq![body]);
        }
        if line.last().kind() == TokenKind::Comment {
            assert(body.push(line.last()) =~= line);
            assert(attach_comment(seq![body], line.last()) =~= seq![line]);
        }
    }
}

/// A document of canonical lines is left as it is.
pub proof fn lemma_canonical_lines_fixed(lines: Seq<LineModel>)
    requires
        all_canonical(lines),
    ensures
        normalized_lines(lines) == lines,
    decreases lines.len(),
{
    if lines.len() > 0 {
        let front = lines.drop_last();
        assert forall|i: int| 0 <= i < front.len() implies is_canonical(#[trigger] front[i]) by {
            assert(front[i] == lines[i]);
        }
        lemma_canonical_lines_fixed(front);
        lemma_canonical_line_fixed(lines.last());
        assert(front + seq![lines.last()] =~= lines);
    } else {
        assert(normalized_lines(lines) =~= lines);
    }
}

/// Normalising is idempotent: a normalised document, normalised again, is
/// unchanged.
pub proof fn lemma_normalize_idempotent(raw: Seq<LineModel>)
    ensures
        normalized_lines(normalized_lines(raw)) == normalized_lines(raw),
{
    lemma_normalized_lines_canonical(raw);
    lemma_canonical_lines_fixed(normalized_lines(raw));
}

} // verus!
