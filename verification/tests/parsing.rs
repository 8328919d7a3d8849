//! The preprocessor, the parser of lines and scripts, and label extraction.

use exa::parse::parse_text;
use exa::parse::parts::{parse_instruction, parse_line, parse_literal, parse_register, parse_target};
use exa::parse::preprocess::{expand_macros, preprocess_text, strip_comments, strip_empty_lines, strip_whitespace};
use exa::vm::exa::ops::int_to_digits;
use exa::vm::exa::Exa;
use exa::vm::instruction::{Comparator, Instruction, Target};

// parse_text

#[test]
fn test_parse_text() {
    let s = "LINK 800
        copy   1    x \t

@rep 2
 addi @{-5,-4} 1 x ; comment
     @end
muli 1 0 #nrv
note we groovin";
    assert_eq!(
        parse_text(s),
        Ok(vec![
            Instruction::Link(Target::Literal(800)),
            Instruction::Copy(Target::Literal(1), Target::Register(String::from("x"))),
            Instruction::Addi(Target::Literal(-5), Target::Literal(1), Target::Register(String::from("x"))),
            Instruction::Addi(Target::Literal(-9), Target::Literal(1), Target::Register(String::from("x"))),
            Instruction::Muli(Target::Literal(1), Target::Literal(0), Target::Register(String::from("#nrv"))),
        ])
    );
}

#[test]
fn test_literal_bounds() {
    let s = "addi -9999 9999 x\n";
    assert_eq!(
        parse_text(s),
        Ok(vec![Instruction::Addi(
            Target::Literal(-9999),
            Target::Literal(9999),
            Target::Register("x".into()),
        )])
    );

    let s = "copy 10000 x\n";
    assert_eq!(parse_text(s), Err("literal out of range".into()),);
}

#[test]
fn test_m_limit() {
    let s = "copy 1 m\n";
    assert_eq!(
        parse_text(s),
        Ok(vec![Instruction::Copy(Target::Literal(1), Target::Register("m".into()),)])
    );

    let s = "copy m m\n";
    assert_eq!(
        parse_text(s),
        Err("cannot reference M register more than once in one instruction".into()),
    );
}

// parts

#[test]
fn parts_test_literal() {
    assert_eq!(parse_literal("302 bacon"), Ok((" bacon", 302)));
    assert_eq!(parse_literal("-32 fwef"), Ok((" fwef", -32)));
    // overflow errors
    assert!(parse_literal("10000000000 ohno").is_err());
    assert_eq!(parse_literal("2897bacon"), Ok(("bacon", 2897)));
    // nothing to parse
    assert!(parse_literal("something 123 oh no").is_err());
    // sign shenanigans are an error
    assert!(parse_literal("+-123").is_err());
    assert!(parse_literal("++123").is_err());
    assert!(parse_literal("--123").is_err());
}

#[test]
fn parts_test_register() {
    assert_eq!(parse_register("#NRV reg"), Ok((" reg", String::from("#nrv"))));
    assert_eq!(parse_register("X 123"), Ok((" 123", String::from("x"))));
}

#[test]
fn parts_test_target() {
    assert_eq!(parse_target("329 ok"), Ok((" ok", Target::Literal(329))));
    assert_eq!(parse_target("-1 ok"), Ok((" ok", Target::Literal(-1))));
    assert_eq!(parse_target("+9999 ok"), Ok((" ok", Target::Literal(9999))));

    assert_eq!(parse_target("#NRV ok"), Ok((" ok", Target::Register(String::from("#nrv")))),);
    assert_eq!(parse_target("x ok"), Ok((" ok", Target::Register(String::from("x")))),);
}

#[test]
fn parts_test_link() {
    assert_eq!(parse_line("LINK -1\nok"), Ok(("ok", Instruction::Link(Target::Literal(-1)))));
    assert_eq!(
        parse_line("LINK #NRV\nok"),
        Ok(("ok", Instruction::Link(Target::Register(String::from("#nrv")))))
    );
    assert_eq!(parse_line("LINK 999   \nok"), Ok(("ok", Instruction::Link(Target::Literal(999)))));
}

#[test]
fn test_copy() {
    assert_eq!(
        parse_line("copy 5887 x\nlink 1"),
        Ok(("link 1", Instruction::Copy(Target::Literal(5887), Target::Register(String::from("x"))))),
    )
}

#[test]
fn parse_test_literal() {
    assert_eq!(parse_literal("302 bacon"), Ok((" bacon", 302)));
    assert_eq!(parse_literal("-32 fwef"), Ok((" fwef", -32)));
    assert!(parse_literal("10000000000 ohno").is_err());
    assert_eq!(parse_literal("2897bacon"), Ok(("bacon", 2897)));
    assert!(parse_literal("something 123 oh no").is_err());
    assert!(parse_literal("+-123").is_err());
    assert!(parse_literal("++123").is_err());
    assert!(parse_literal("--123").is_err());
}

#[test]
fn parse_test_register() {
    assert_eq!(parse_register("#NRV reg"), Ok((" reg", String::from("#nrv"))));
    assert_eq!(parse_register("X 123"), Ok((" 123", String::from("x"))));
}

#[test]
fn parse_test_target() {
    assert_eq!(parse_target("329 ok"), Ok((" ok", Target::Literal(329))));
    assert_eq!(parse_target("-1 ok"), Ok((" ok", Target::Literal(-1))));
    assert_eq!(parse_target("+9999 ok"), Ok((" ok", Target::Literal(9999))));
    assert_eq!(parse_target("#NRV ok"), Ok((" ok", Target::Register(String::from("#nrv")))),);
    assert_eq!(parse_target("x ok"), Ok((" ok", Target::Register(String::from("x")))),);
}

#[test]
fn test_instruction() {
    assert_eq!(parse_instruction("link 4"), Ok(("4", String::from("link"))));
    assert_eq!(parse_instruction("TEST MRD 4"), Ok(("4", String::from("test mrd"))));
    assert_eq!(parse_instruction("void M 4"), Ok(("4", String::from("void m"))));
    assert_eq!(parse_instruction("teST eof 4"), Ok(("4", String::from("test eof"))));
    assert_eq!(parse_instruction("void f 4"), Ok(("4", String::from("void f"))));
}

#[test]
fn parse_test_link() {
    assert_eq!(parse_line("LINK -1\nok"), Ok(("ok", Instruction::Link(Target::Literal(-1)))));
    assert_eq!(
        parse_line("LINK #NRV\nok"),
        Ok(("ok", Instruction::Link(Target::Register(String::from("#nrv")))))
    );
    assert_eq!(parse_line("LINK 999   \nok"), Ok(("ok", Instruction::Link(Target::Literal(999)))));
}

// preprocess

#[test]
fn test_strip_whitespace() {
    assert_eq!(strip_whitespace(" t "), String::from("t"));
    assert_eq!(strip_whitespace(" \t\tcontent ok   \t"), String::from("content ok"));
    assert_eq!(
        strip_whitespace(" line 1\n\tline two   \nline three"),
        String::from("line 1\nline two\nline three")
    );
}

#[test]
fn test_strip_comments() {
    assert_eq!(strip_comments("nothing to see here\n"), String::from("nothing to see here\n"));
    assert_eq!(strip_comments("nothing to ;see here\n"), String::from("nothing to \n"));
    assert_eq!(strip_comments("nothing to;;;see here\n"), String::from("nothing to\n"));
    assert_eq!(strip_comments("; full line comment \n"), String::from("\n"));
    assert_eq!(strip_comments("NOTE nothing to see here \n"), String::from("\n"));
    assert_eq!(strip_comments("can also note inline\n"), String::from("can also \n"));
}

#[test]
fn test_strip_empty_lines() {
    assert_eq!(strip_empty_lines("  some bullshit\n\n\n  ok\n"), String::from("  some bullshit\n  ok\n"));
}

#[test]
fn test_expand_macros() {
    assert_eq!(expand_macros("nothing\nto expand\n"), String::from("nothing\nto expand\n"),);

    assert_eq!(
        expand_macros("header\n@rep 5\nbooya\n@end\n"),
        String::from("header\nbooya\nbooya\nbooya\nbooya\nbooya\n"),
    );

    assert_eq!(
        expand_macros("@rep 2\nlink @{3,5}\ncopy @{1,2} x\n@end\n"),
        String::from("link 3\ncopy 1 x\nlink 8\ncopy 3 x\n"),
    );

    assert_eq!(
        expand_macros("@rep 2\nlink @{-1,-4}\ncopy @{-5,3} x\n@end\n"),
        String::from("link -1\ncopy -5 x\nlink -5\ncopy -2 x\n"),
    );
}

#[test]
fn test_multiple_macros() {
    assert_eq!(
        expand_macros("@rep 2\nnoop\n@end\n@rep 2\ncopy 1 x\n@end\n"),
        String::from("noop\nnoop\ncopy 1 x\ncopy 1 x\n"),
    )
}

#[test]
fn test_macro_expand_value_multiple_digits() {
    assert_eq!(expand_macros("@rep 2\ncopy @{20,40} x\n @end\n"), String::from("copy 20 x\ncopy 60 x\n"),);
}

#[test]
fn preprocess_runs_every_pass() {
    assert_eq!(
        preprocess_text("  copy 1 x ; set x\n\n@rep 2\ntest x = @{0,1}\n@end\n"),
        String::from("copy 1 x \ntest x = 0\ntest x = 1\n")
    );
}

// digits

#[test]
fn test_digits() {
    assert_eq!(int_to_digits(1234), vec![1, 2, 3, 4]);
    assert_eq!(int_to_digits(0), vec![0, 0, 0, 0]);
    assert_eq!(int_to_digits(8), vec![0, 0, 0, 8]);
    assert_eq!(int_to_digits(56), vec![0, 0, 5, 6]);
    assert_eq!(int_to_digits(123), vec![0, 1, 2, 3]);
    assert_eq!(int_to_digits(-9876), vec![9, 8, 7, 6]);
}

// labels

#[test]
fn extract_labels() {
    let mut insts = vec![
        Instruction::Mark("first".into()),
        Instruction::Noop,
        Instruction::Mark("second".into()),
        Instruction::Mark("third".into()),
        Instruction::Noop,
    ];
    let extracted = Exa::extract_labels(&mut insts);
    assert_eq!(insts, vec![Instruction::Noop, Instruction::Noop]);
    assert_eq!(extracted.get("first").expect("not found"), 0);
    assert_eq!(extracted.get("second").expect("not found"), 1);
    assert_eq!(extracted.get("third").expect("not found"), 1);
}

#[test]
fn extract_labels_at_end() {
    let mut insts = vec![
        Instruction::Mark("first".into()),
        Instruction::Noop,
        Instruction::Mark("second".into()),
        Instruction::Mark("third".into()),
    ];
    let extracted = Exa::extract_labels(&mut insts);
    assert_eq!(insts, vec![Instruction::Noop]);
    assert_eq!(extracted.get("first").expect("not found"), 0);
    assert_eq!(extracted.get("second").expect("not found"), 1);
    assert_eq!(extracted.get("third").expect("not found"), 1);
}

#[test]
fn test_with_comparator_and_label_lines() {
    assert_eq!(
        parse_text("mark top\ntest x > 3\ntjmp top\n"),
        Ok(vec![
            Instruction::Mark("top".into()),
            Instruction::Test(Target::Register("x".into()), Comparator::GreaterThan, Target::Literal(3)),
            Instruction::Tjmp("top".into()),
        ])
    );
}
