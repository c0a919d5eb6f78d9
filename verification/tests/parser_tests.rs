use jack_vm::parser::{parse_bytecode, parse_segment, Command, ParseError, Segment};

#[test]
fn segments_by_name() {
    assert_eq!(parse_segment("pointer"), Some(Segment::Pointer));
    assert_eq!(parse_segment("constant"), Some(Segment::Constant));
    assert_eq!(parse_segment("local"), Some(Segment::Local));
    assert_eq!(parse_segment("argument"), Some(Segment::Argument));
    assert_eq!(parse_segment("static"), Some(Segment::Static));
    assert_eq!(parse_segment("this"), Some(Segment::This));
    assert_eq!(parse_segment("that"), Some(Segment::That));
    assert_eq!(parse_segment("temp"), Some(Segment::Temp));
    assert_eq!(parse_segment("Local"), None);
    assert_eq!(parse_segment(""), None);
}

#[test]
fn parses_a_class_with_functions() {
    let text = "// a program\nclass Main\nfunction main 2\npush constant 7\npush local 1 // comment\nadd\nlabel LOOP\n  goto LOOP\nif-goto END\ncall Math.multiply 2\npop temp 0\nreturn\n";
    let b = parse_bytecode(text).unwrap();
    assert_eq!(b.functions.len(), 1);
    assert_eq!(b.functions[0].0, "Main.main");
    let f = b.function("Main.main").unwrap();
    assert_eq!(f.start_line, 2);
    assert_eq!(f.num_vars, 2);
    let cmds: Vec<Command> = f.commands.iter().map(|c| c.command.clone()).collect();
    assert_eq!(
        cmds,
        vec![
            Command::Function("Main.main".to_string(), 2),
            Command::Push(Segment::Constant, 7),
            Command::Push(Segment::Local, 1),
            Command::Add,
            Command::Label("LOOP".to_string()),
            Command::GoTo("LOOP".to_string()),
            Command::IfGoTo("END".to_string()),
            Command::Call("Math.multiply".to_string(), 2),
            Command::Pop(Segment::Temp, 0),
            Command::Return,
        ]
    );
    let lines: Vec<usize> = f.commands.iter().map(|c| c.line).collect();
    assert_eq!(lines, vec![2, 3, 4, 5, 6, 7, 8, 9, 10, 11]);
    assert_eq!(f.label_table, vec![("LOOP".to_string(), 4)]);
    assert!(b.function("Main.other").is_none());
}

#[test]
fn function_without_class_gets_a_leading_dot() {
    let b = parse_bytecode("function f 0\nreturn").unwrap();
    assert_eq!(b.functions[0].0, ".f");
    assert_eq!(b.function(".f").unwrap().commands.len(), 2);
}

#[test]
fn commands_before_any_function_are_dropped() {
    let b = parse_bytecode("push constant 1\nadd\n").unwrap();
    assert!(b.functions.is_empty());
}

#[test]
fn all_zero_argument_commands() {
    let b = parse_bytecode("function g 0\nadd\nsub\nneg\neq\ngt\nlt\nand\nor\nnot\nreturn").unwrap();
    let cmds: Vec<Command> = b.functions[0].1.commands.iter().map(|c| c.command.clone()).collect();
    assert_eq!(
        cmds[1..].to_vec(),
        vec![
            Command::Add,
            Command::Sub,
            Command::Neg,
            Command::Eq,
            Command::Gt,
            Command::Lt,
            Command::And,
            Command::Or,
            Command::Not,
            Command::Return,
        ]
    );
}

#[test]
fn crlf_tabs_and_blank_lines() {
    let text = "class A\r\n\r\n\tfunction f 1 \r\n\r\n   push argument 0\t\r\nreturn";
    let b = parse_bytecode(text).unwrap();
    let f = b.function("A.f").unwrap();
    assert_eq!(f.start_line, 2);
    assert_eq!(f.commands[1].command, Command::Push(Segment::Argument, 0));
    assert_eq!(f.commands[1].line, 4);
    assert_eq!(f.commands[2].line, 5);
}

#[test]
fn numbers_with_signs_and_limits() {
    let b = parse_bytecode("function f 0\npush constant -32768\npush constant +32767\npush constant 007").unwrap();
    let f = &b.functions[0].1;
    assert_eq!(f.commands[1].command, Command::Push(Segment::Constant, -32768));
    assert_eq!(f.commands[2].command, Command::Push(Segment::Constant, 32767));
    assert_eq!(f.commands[3].command, Command::Push(Segment::Constant, 7));
}

#[test]
fn redeclared_function_replaces_the_first() {
    let b = parse_bytecode("class C\nfunction f 0\nadd\nfunction g 1\nfunction f 3\nreturn").unwrap();
    assert_eq!(b.functions.len(), 2);
    assert_eq!(b.functions[0].0, "C.f");
    assert_eq!(b.functions[1].0, "C.g");
    let f = b.function("C.f").unwrap();
    assert_eq!(f.num_vars, 3);
    assert_eq!(f.start_line, 4);
    assert_eq!(f.commands.len(), 2);
}

#[test]
fn class_switches_the_prefix() {
    let b = parse_bytecode("class A\nfunction f 0\nclass B\nfunction f 0").unwrap();
    assert_eq!(b.functions.len(), 2);
    let a = b.function("A.f").unwrap();
    // the `class B` line goes to the function that is current when it is read
    assert_eq!(a.commands[1].command, Command::Class("B".to_string()));
    assert!(b.function("B.f").is_some());
}

#[test]
fn empty_text_has_no_functions() {
    assert!(parse_bytecode("").unwrap().functions.is_empty());
    assert!(parse_bytecode("\n\n// only a comment\n").unwrap().functions.is_empty());
}

#[test]
fn error_invalid_zero_argument_command() {
    assert_eq!(
        parse_bytecode("function f 0\nfoo").unwrap_err(),
        ParseError::InvalidZeroArgumentCommand { line: 1, word: "foo".to_string() }
    );
}

#[test]
fn error_invalid_one_argument_command() {
    assert_eq!(
        parse_bytecode("jump x").unwrap_err(),
        ParseError::InvalidOneArgumentCommand { line: 0, word: "jump".to_string() }
    );
}

#[test]
fn error_label_outside_function() {
    assert_eq!(
        parse_bytecode("class A\nlabel L").unwrap_err(),
        ParseError::LabelOutsideFunction { line: 1 }
    );
}

#[test]
fn error_duplicate_label() {
    assert_eq!(
        parse_bytecode("function f 0\nlabel L\nlabel M\nlabel L").unwrap_err(),
        ParseError::DuplicateLabel { line: 3, label: "L".to_string(), location: 3, previous: 1 }
    );
}

#[test]
fn error_invalid_number() {
    assert_eq!(
        parse_bytecode("push constant x").unwrap_err(),
        ParseError::InvalidNumber { line: 0 }
    );
    assert_eq!(
        parse_bytecode("push constant 32768").unwrap_err(),
        ParseError::InvalidNumber { line: 0 }
    );
    assert_eq!(
        parse_bytecode("push constant -").unwrap_err(),
        ParseError::InvalidNumber { line: 0 }
    );
    assert_eq!(
        parse_bytecode("bogus name z").unwrap_err(),
        ParseError::InvalidNumber { line: 0 }
    );
}

#[test]
fn error_invalid_segment() {
    assert_eq!(
        parse_bytecode("function f 0\npop stack 1").unwrap_err(),
        ParseError::InvalidSegment { line: 1, name: "stack".to_string() }
    );
}

#[test]
fn error_invalid_two_argument_command() {
    assert_eq!(
        parse_bytecode("move local 1").unwrap_err(),
        ParseError::InvalidTwoArgumentCommand { line: 0, word: "move".to_string() }
    );
}

#[test]
fn error_invalid_syntax() {
    assert_eq!(
        parse_bytecode("push constant 1 2").unwrap_err(),
        ParseError::InvalidSyntax { line: 0, words: 4 }
    );
    // words are separated by single spaces
    assert_eq!(
        parse_bytecode("push  constant 1").unwrap_err(),
        ParseError::InvalidSyntax { line: 0, words: 4 }
    );
}

#[test]
fn first_error_wins() {
    assert_eq!(
        parse_bytecode("function f 0\nfoo\nbar x").unwrap_err(),
        ParseError::InvalidZeroArgumentCommand { line: 1, word: "foo".to_string() }
    );
}

#[test]
fn comments_do_not_change_the_parse() {
    let with = "class A // the class\nfunction f 0 // decl\npush constant 1//x\nlabel L // here\nreturn";
    let without = "class A \nfunction f 0 \npush constant 1\nlabel L \nreturn";
    let a = parse_bytecode(with).unwrap();
    let b = parse_bytecode(without).unwrap();
    assert_eq!(a.functions.len(), b.functions.len());
    let fa = a.function("A.f").unwrap();
    let fb = b.function("A.f").unwrap();
    let ca: Vec<(Command, usize)> = fa.commands.iter().map(|c| (c.command.clone(), c.line)).collect();
    let cb: Vec<(Command, usize)> = fb.commands.iter().map(|c| (c.command.clone(), c.line)).collect();
    assert_eq!(ca, cb);
    assert_eq!(fa.label_table, fb.label_table);
    assert_eq!(
        parse_bytecode("foo // c").unwrap_err(),
        parse_bytecode("foo").unwrap_err()
    );
}
