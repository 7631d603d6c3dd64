use y86fmt::document::{check_document, format_document, render_lines, FormatError, Formatted};
use y86fmt::normalize::{normalize_document, normalize_line};
use y86fmt::plan::{column_plan, ColumnPlan};
use y86fmt::render::{format_instruction, line_has_directive, render_block, render_line, render_token};
use y86fmt::segment::{line_opens_block, segment};
use y86fmt::text::{join, pad, text_len};
use y86fmt::token::{Token, TokenKind};

fn label(text: &str) -> Token {
    Token::Label(text.to_string())
}

fn directive(text: &str) -> Token {
    Token::Directive(text.to_string())
}

fn comment(body: &str) -> Token {
    Token::Comment(body.to_string())
}

fn instruction(mnemonic: &str, operands: &[&str]) -> Token {
    Token::Instruction {
        mnemonic: mnemonic.to_string(),
        operands: operands.iter().map(|o| o.to_string()).collect(),
    }
}

fn text_of(raw: &Vec<Vec<Token>>) -> String {
    match format_document(raw) {
        Ok(Formatted::Text(text)) => text,
        other => panic!("no text: {:?}", other),
    }
}

#[test]
fn pad_adds_spaces_up_to_the_width() {
    assert_eq!(pad(&"mov".to_string(), 6), "mov   ");
    assert_eq!(pad(&"addl".to_string(), 4), "addl");
    assert_eq!(pad(&String::new(), 2), "  ");
    assert_eq!(pad(&String::new(), 0), "");
}

#[test]
fn pad_counts_bytes() {
    // two bytes for the accented letter
    assert_eq!(text_len("\u{e9}"), 2);
    assert_eq!(pad(&"\u{e9}".to_string(), 4), "\u{e9}  ");
}

#[test]
fn join_puts_the_separator_between_parts() {
    let parts = vec!["a".to_string(), "b".to_string(), "".to_string()];
    assert_eq!(join(&parts, "\n"), "a\nb\n");
    assert_eq!(join(&vec!["only".to_string()], ", "), "only");
    assert_eq!(join(&Vec::new(), ", "), "");
}

#[test]
fn token_kinds() {
    assert_eq!(label("a:").kind(), TokenKind::Label);
    assert_eq!(directive(".pos 0").kind(), TokenKind::Directive);
    assert_eq!(instruction("ret", &[]).kind(), TokenKind::Instruction);
    assert_eq!(comment("x").kind(), TokenKind::Comment);
}

#[test]
fn instruction_from_operand_texts() {
    let both = Token::instruction("mov".to_string(), "a".to_string(), "b".to_string());
    assert_eq!(both, instruction("mov", &["a", "b"]));
    let one = Token::instruction("jmp".to_string(), "loop".to_string(), String::new());
    assert_eq!(one, instruction("jmp", &["loop"]));
    let none = Token::instruction("ret".to_string(), String::new(), String::new());
    assert_eq!(none, instruction("ret", &[]));
    let lone_second = Token::instruction("ret".to_string(), String::new(), "b".to_string());
    assert_eq!(lone_second, instruction("ret", &[]));
}

#[test]
fn clones_are_equal() {
    let line = vec![label("a:"), instruction("mov", &["a", "b"]), comment(" c ")];
    assert_eq!(line.clone(), line);
    assert_eq!(line[1].clone(), line[1]);
    assert_ne!(line[0].clone(), line[1]);
}

#[test]
fn blank_line_stays_one_blank_line() {
    assert_eq!(normalize_line(&vec![]), vec![Vec::<Token>::new()]);
}

#[test]
fn single_token_stays_alone() {
    assert_eq!(normalize_line(&vec![comment(" c")]), vec![vec![comment(" c")]]);
    assert_eq!(normalize_line(&vec![label("a:")]), vec![vec![label("a:")]]);
}

#[test]
fn two_instructions_are_split() {
    let raw = vec![instruction("nop", &[]), instruction("ret", &[])];
    assert_eq!(
        normalize_line(&raw),
        vec![vec![instruction("nop", &[])], vec![instruction("ret", &[])]]
    );
}

#[test]
fn label_and_directive_stay_fused() {
    let raw = vec![label("stack:"), directive(".pos 0x100")];
    assert_eq!(normalize_line(&raw), vec![raw.clone()]);
}

#[test]
fn label_and_instruction_are_split() {
    let raw = vec![label("loop:"), instruction("add", &["r1", "r2"])];
    assert_eq!(
        normalize_line(&raw),
        vec![vec![label("loop:")], vec![instruction("add", &["r1", "r2"])]]
    );
}

#[test]
fn instruction_keeps_its_trailing_comment() {
    let raw = vec![instruction("ret", &[]), comment(" done")];
    assert_eq!(normalize_line(&raw), vec![raw.clone()]);
}

#[test]
fn trailing_comment_joins_the_last_statement() {
    let raw = vec![
        label("a:"),
        directive(".quad 1"),
        instruction("nop", &[]),
        label("b:"),
        instruction("ret", &[]),
        comment(" end"),
    ];
    assert_eq!(
        normalize_line(&raw),
        vec![
            vec![label("a:"), directive(".quad 1")],
            vec![instruction("nop", &[])],
            vec![label("b:")],
            vec![instruction("ret", &[]), comment(" end")],
        ]
    );
}

#[test]
fn trailing_comment_joins_a_fused_pair() {
    let raw = vec![label("a:"), directive(".quad 1"), comment("one")];
    assert_eq!(normalize_line(&raw), vec![raw.clone()]);
}

#[test]
fn comment_in_the_middle_is_a_statement() {
    let raw = vec![comment("first"), instruction("nop", &[])];
    assert_eq!(
        normalize_line(&raw),
        vec![vec![comment("first")], vec![instruction("nop", &[])]]
    );
}

#[test]
fn label_before_label_and_directive() {
    let raw = vec![label("a:"), label("b:"), directive(".pos 0")];
    assert_eq!(
        normalize_line(&raw),
        vec![vec![label("a:")], vec![label("b:"), directive(".pos 0")]]
    );
}

#[test]
fn document_is_normalised_line_by_line() {
    let raw = vec![
        vec![label("a:"), instruction("nop", &[])],
        vec![],
        vec![instruction("ret", &[]), comment("x")],
    ];
    assert_eq!(
        normalize_document(&raw),
        vec![
            vec![label("a:")],
            vec![instruction("nop", &[])],
            vec![],
            vec![instruction("ret", &[]), comment("x")],
        ]
    );
    assert_eq!(normalize_document(&Vec::new()), Vec::<Vec<Token>>::new());
}

#[test]
fn normalising_twice_changes_nothing() {
    let raw = vec![
        vec![label("a:"), directive(".quad 1"), instruction("nop", &[]), comment("x")],
        vec![comment("a"), comment("b")],
        vec![],
        vec![label("b:"), label("c:"), instruction("ret", &[])],
    ];
    let once = normalize_document(&raw);
    assert_eq!(normalize_document(&once), once);
    let kept: Vec<Token> = once.iter().flatten().cloned().collect();
    let given: Vec<Token> = raw.iter().flatten().cloned().collect();
    assert_eq!(kept, given);
}

#[test]
fn blank_lines_and_labels_open_blocks() {
    assert!(line_opens_block(&vec![]));
    assert!(line_opens_block(&vec![label("a:"), directive(".pos 0")]));
    assert!(!line_opens_block(&vec![instruction("nop", &[])]));
    assert!(!line_opens_block(&vec![comment("x")]));
    assert!(!line_opens_block(&vec![directive(".pos 0")]));
}

#[test]
fn segments_at_blank_lines_and_labels() {
    let lines = vec![
        vec![directive(".pos 0")],
        vec![instruction("nop", &[])],
        vec![label("a:")],
        vec![instruction("ret", &[])],
        vec![],
        vec![],
        vec![comment("x")],
    ];
    let blocks = segment(&lines);
    assert_eq!(
        blocks,
        vec![
            vec![vec![directive(".pos 0")], vec![instruction("nop", &[])]],
            vec![vec![label("a:")], vec![instruction("ret", &[])]],
            vec![vec![]],
            vec![vec![], vec![comment("x")]],
        ]
    );
    let back: Vec<Vec<Token>> = blocks.into_iter().flatten().collect();
    assert_eq!(back, lines);
    assert_eq!(segment(&Vec::new()), Vec::<Vec<Vec<Token>>>::new());
}

#[test]
fn first_line_opens_the_first_block() {
    let lines = vec![vec![label("a:")], vec![instruction("nop", &[])]];
    assert_eq!(segment(&lines), vec![lines.clone()]);
}

#[test]
fn plan_is_the_widest_of_each_column() {
    let block = vec![
        vec![label("a:")],
        vec![instruction("mov", &["a", "b"])],
        vec![instruction("addl", &["c"])],
        vec![instruction("irmovq", &["$0x100", "%rsp"]), comment("setup")],
        vec![instruction("ret", &[])],
    ];
    assert_eq!(column_plan(&block), ColumnPlan { mnemonic: 6, first: 6, second: 4 });
}

#[test]
fn plan_without_instructions_is_zero() {
    let block = vec![vec![label("a:"), directive(".quad 12345")], vec![comment("long comment")]];
    assert_eq!(column_plan(&block), ColumnPlan { mnemonic: 0, first: 0, second: 0 });
    assert_eq!(column_plan(&Vec::new()), ColumnPlan::empty());
}

#[test]
fn plan_widens_by_token_and_by_line() {
    let plan = ColumnPlan { mnemonic: 2, first: 5, second: 0 };
    let wider = plan.widened(&instruction("mov", &["a", "bc"]));
    assert_eq!(wider, ColumnPlan { mnemonic: 3, first: 5, second: 2 });
    assert_eq!(plan.widened(&comment("a long comment")), plan);
    let line = vec![instruction("jmp", &["target"]), instruction("pushq", &[])];
    assert_eq!(plan.widened_by_line(&line), ColumnPlan { mnemonic: 5, first: 6, second: 0 });
}

#[test]
fn instruction_formats() {
    let plan = ColumnPlan { mnemonic: 4, first: 3, second: 2 };
    let m = "mov".to_string();
    assert_eq!(format_instruction(&m, &vec![], &plan), "mov ");
    assert_eq!(format_instruction(&m, &vec!["a".to_string()], &plan), "mov  a  ");
    assert_eq!(
        format_instruction(&m, &vec!["a".to_string(), "b".to_string()], &plan),
        "mov  a,   b "
    );
    assert_eq!(
        format_instruction(&"addl".to_string(), &vec!["abc".to_string(), "de".to_string()], &plan),
        "addl abc, de"
    );
}

#[test]
fn tokens_render() {
    let plan = ColumnPlan { mnemonic: 3, first: 2, second: 2 };
    assert_eq!(render_token(&label("loop:"), &plan), "loop:");
    assert_eq!(render_token(&directive(".align 8"), &plan), ".align 8");
    assert_eq!(render_token(&instruction("add", &["r1", "r2"]), &plan), "\tadd r1, r2");
    assert_eq!(render_token(&comment("  spaced out \t"), &plan), "# spaced out");
    assert_eq!(render_token(&comment(""), &plan), "# ");
}

#[test]
fn comment_body_is_trimmed_of_unicode_white_space() {
    let plan = ColumnPlan::empty();
    assert_eq!(render_token(&comment("\u{a0}\u{2003}note\u{3000}\n"), &plan), "# note");
    assert_eq!(render_token(&comment(" a  b "), &plan), "# a  b");
    assert_eq!(render_token(&comment(" \t "), &plan), "# ");
}

#[test]
fn directive_is_found_anywhere_on_the_line() {
    assert!(line_has_directive(&vec![label("a:"), directive(".pos 0")]));
    assert!(line_has_directive(&vec![directive(".pos 0"), comment("x")]));
    assert!(!line_has_directive(&vec![label("a:"), comment(".pos 0")]));
    assert!(!line_has_directive(&vec![]));
}

#[test]
fn mnemonic_column_is_as_wide_as_the_longest() {
    let block = vec![vec![instruction("mov", &["a", "b"])], vec![instruction("addl", &["c"])]];
    assert_eq!(column_plan(&block), ColumnPlan { mnemonic: 4, first: 1, second: 1 });
    assert_eq!(render_block(&block), vec!["\tmov  a, b".to_string(), "\taddl c".to_string()]);
}

#[test]
fn comment_under_a_label_is_indented() {
    let block = vec![
        vec![label("label:")],
        vec![comment(" note")],
        vec![instruction("ret", &[])],
    ];
    assert_eq!(
        render_block(&block),
        vec!["label:".to_string(), "\t# note".to_string(), "\tret".to_string()]
    );
}

#[test]
fn comment_that_opens_a_block_is_not_indented() {
    let block = vec![vec![comment(" note")], vec![instruction("ret", &[])]];
    assert_eq!(render_block(&block), vec!["# note".to_string(), "\tret".to_string()]);
}

#[test]
fn comment_under_a_directive_is_not_indented() {
    let block = vec![
        vec![label("a:"), directive(".quad 1")],
        vec![comment("one")],
        vec![comment("two")],
        vec![directive(".quad 2"), comment("x")],
        vec![comment("three")],
    ];
    assert_eq!(
        render_block(&block),
        vec![
            "a: .quad 1".to_string(),
            "# one".to_string(),
            "\t# two".to_string(),
            ".quad 2 # x".to_string(),
            "# three".to_string(),
        ]
    );
}

#[test]
fn lines_render_by_position() {
    let block = vec![
        vec![],
        vec![comment("x")],
        vec![instruction("ret", &[]), comment(" bye ")],
        vec![label("a:"), comment("here")],
        vec![comment("a"), comment("b")],
    ];
    let plan = column_plan(&block);
    assert_eq!(render_line(&block, 0, &plan), "");
    assert_eq!(render_line(&block, 1, &plan), "\t# x");
    assert_eq!(render_line(&block, 2, &plan), "\tret # bye");
    assert_eq!(render_line(&block, 3, &plan), "a: # here");
    assert_eq!(render_line(&block, 4, &plan), "\t# a # b");
}

#[test]
fn each_block_has_its_own_columns() {
    let lines = vec![
        vec![label("a:")],
        vec![instruction("irmovq", &["$0x100", "%rsp"])],
        vec![instruction("ret", &[])],
        vec![label("b:")],
        vec![instruction("mov", &["a", "b"])],
        vec![instruction("ret", &[])],
    ];
    assert_eq!(
        render_lines(&lines),
        vec![
            "a:".to_string(),
            "\tirmovq $0x100, %rsp".to_string(),
            "\tret   ".to_string(),
            "b:".to_string(),
            "\tmov a, b".to_string(),
            "\tret".to_string(),
        ]
    );
    let mut changed = lines.clone();
    changed[1] = vec![instruction("irmovq", &["$0x100000", "%rsp"])];
    let rendered = render_lines(&changed);
    assert_eq!(rendered[3..], render_lines(&lines)[3..]);
}

#[test]
fn label_instruction_blank() {
    let raw = vec![vec![label("loop:")], vec![instruction("add", &["r1", "r2"])], vec![]];
    assert_eq!(text_of(&raw), "loop:\n\tadd r1, r2\n");
}

#[test]
fn empty_document_gives_the_sentinel() {
    assert_eq!(format_document(&Vec::new()), Ok(Formatted::Empty));
    assert_eq!(format_document(&vec![vec![]]), Ok(Formatted::Text(String::new())));
}

#[test]
fn whole_document() {
    let raw = vec![
        vec![comment(" start")],
        vec![directive(".pos 0")],
        vec![label("init:"), instruction("irmovq", &["stack", "%rsp"]), comment("set up")],
        vec![instruction("call", &["main"]), instruction("halt", &[])],
        vec![],
        vec![label("stack:"), directive(".pos 0x100"), comment(" top ")],
    ];
    assert_eq!(
        text_of(&raw),
        "# start\n.pos 0\ninit:\n\tirmovq stack, %rsp # set up\n\tcall   main \n\thalt  \n\nstack: .pos 0x100 # top"
    );
}

#[test]
fn formatting_the_normalised_document_gives_the_same_text() {
    let raw = vec![
        vec![label("a:"), instruction("mov", &["a", "b"]), instruction("addl", &["c"])],
        vec![comment("x"), label("b:"), directive(".quad 1"), comment(" y ")],
        vec![],
        vec![instruction("ret", &[])],
    ];
    let once = normalize_document(&raw);
    assert_eq!(text_of(&once), text_of(&raw));
}

#[test]
fn trimming_the_comments_first_gives_the_same_text() {
    let raw = vec![
        vec![label("a:"), comment("  padded \t")],
        vec![instruction("mov", &["a", "b"]), comment("\u{a0}x ")],
        vec![comment("   ")],
    ];
    let tidy = vec![
        vec![label("a:"), comment("padded")],
        vec![instruction("mov", &["a", "b"]), comment("x")],
        vec![comment("")],
    ];
    assert_eq!(text_of(&tidy), text_of(&raw));
    assert_eq!(text_of(&raw), "a: # padded\n\tmov a, b # x\n\t# ");
}

#[test]
fn instructions_of_a_block_are_equally_long() {
    let block = vec![
        vec![instruction("irmovq", &["$8", "%rdx"])],
        vec![instruction("addq", &["%rdx", "%rax"])],
        vec![instruction("jmp", &["loop"])],
        vec![instruction("call", &["f"])],
        vec![instruction("ret", &[])],
        vec![instruction("halt", &[])],
    ];
    let texts = render_block(&block);
    assert_eq!(texts[0], "\tirmovq $8,   %rdx");
    assert_eq!(texts[1], "\taddq   %rdx, %rax");
    assert_eq!(texts[2], "\tjmp    loop");
    assert_eq!(texts[3], "\tcall   f   ");
    assert_eq!(texts[4], "\tret   ");
    assert_eq!(texts[5], "\thalt  ");
    assert_eq!(texts[0].len(), texts[1].len());
    assert_eq!(texts[2].len(), texts[3].len());
    assert_eq!(texts[4].len(), texts[5].len());
}

#[test]
fn only_layout_is_added() {
    let raw = vec![
        vec![label("a:"), instruction("mov", &["a", "b"]), comment(" see  below ")],
        vec![directive(".quad 1"), instruction("ret", &[])],
    ];
    let kept: String = text_of(&raw).chars().filter(|c| !" \t\n".contains(*c)).collect();
    assert_eq!(kept, "a:mova,b#seebelow.quad1ret");
}

#[test]
fn too_many_operands_are_refused() {
    let raw = vec![
        vec![label("a:")],
        vec![instruction("nop", &[]), instruction("bad", &["a", "b", "c"])],
        vec![instruction("worse", &["a", "b", "c", "d"])],
    ];
    let expected = FormatError::TooManyOperands { line: 1, token: 1 };
    assert_eq!(check_document(&raw), Err(expected));
    assert_eq!(format_document(&raw), Err(expected));
    assert_eq!(check_document(&vec![vec![instruction("ok", &["a", "b"])]]), Ok(()));
}
