use bfc::codegen::{AsmTarget, CodegenTarget};
use bfc::lexer::tokenize;
use bfc::parser::{parse, ParseError};
use std::path::PathBuf;

fn compile(source: &str) -> Result<String, ParseError> {
    let tokens = tokenize(source);
    let ast = parse(&tokens)?;
    let target = AsmTarget::new(PathBuf::from("a.asm"));
    assert!(target.can_generate(&ast));
    Ok(target.generate(&ast))
}

fn body_of(listing: &str) -> String {
    let start = listing.find("    mov r12, rsp\n").unwrap() + "    mov r12, rsp\n".len();
    let end = listing.find("    add rsp, 30000\n").unwrap();
    listing[start..end].to_string()
}

#[test]
fn a_commented_program_compiles_to_its_commands() {
    let source = "\
[ adds the two cells: this [nested] text, with + and - in it, is a comment ]
  [ so is this ]
++ > +++         set the cells to 2 and 3
[ < + > - ]      move the second onto the first
";
    let listing = compile(source).unwrap();
    assert_eq!(
        body_of(&listing),
        "\
\x20   add byte [r12], 2
\x20   add r12, 1
\x20   cmp r12, rsp
\x20   jb bounds_error
\x20   lea rax, [rsp + 30000]
\x20   cmp r12, rax
\x20   jae bounds_error
\x20   add byte [r12], 3
loop_start_0:
\x20   cmp byte [r12], 0
\x20   je loop_end_0
\x20   sub r12, 1
\x20   cmp r12, rsp
\x20   jb bounds_error
\x20   lea rax, [rsp + 30000]
\x20   cmp r12, rax
\x20   jae bounds_error
\x20   inc byte [r12]
\x20   add r12, 1
\x20   cmp r12, rsp
\x20   jb bounds_error
\x20   lea rax, [rsp + 30000]
\x20   cmp r12, rax
\x20   jae bounds_error
\x20   dec byte [r12]
\x20   jmp loop_start_0
loop_end_0:
"
    );
}

#[test]
fn commands_apart_in_the_text_form_one_run() {
    // What is not a symbol leaves no trace, so the run goes through it.
    let listing = compile("+ one + two\n+ three").unwrap();
    assert_eq!(body_of(&listing), "    add byte [r12], 3\n");
}

#[test]
fn a_program_of_comments_only_compiles_to_the_frame() {
    let listing = compile("[ nothing to do ]\n").unwrap();
    assert_eq!(body_of(&listing), "");
}

#[test]
fn a_structural_error_stops_before_any_output() {
    assert_eq!(compile("+[-"), Err(ParseError::UnmatchedLoopStart(1)));
    assert_eq!(compile("+]-"), Err(ParseError::UnmatchedLoopEnd(1)));
    // The index counts tokens, not characters.
    assert_eq!(compile("[comment] a + b ] c"), Err(ParseError::UnmatchedLoopEnd(1)));
}
