//! Bytecode text of the stack language: commands, segments, functions, and
//! the parser that turns a program text into a table of functions.
use vstd::prelude::*;

use crate::memory::WordSize;
use crate::text::{
    comment_start, line_ranges, lines, parse_i16, parse_i16_spec, range_is, split_on, split_ranges,
    strip_comment, text_chars, trim, trim_range, lemma_strip_comment_idempotent,
};

verus! {

/// The offset operand of `push` and `pop`.
pub type Offset = WordSize;

/// A memory segment named by `push` and `pop`.
#[derive(PartialEq, Eq, Structural, Debug, Clone, Copy)]
pub enum Segment {
    // Stack Pointer
    Pointer,
    Constant,
    Local,
    Argument,
    Static,
    This,
    That,
    Temp,
}

/// One command of the bytecode.
#[derive(PartialEq, Eq, Debug, Clone)]
pub enum Command {
    Pop(Segment, Offset),
    Push(Segment, Offset),
    Add,
    Sub,
    Neg,
    Eq,
    Gt,
    Lt,
    And,
    Or,
    Not,
    GoTo(String),
    IfGoTo(String),
    Label(String),
    Function(String, WordSize),
    Call(String, WordSize),
    Class(String),
    Return,
}

/// A command with its names taken as character sequences.
pub enum CommandView {
    Pop(Segment, Offset),
    Push(Segment, Offset),
    Add,
    Sub,
    Neg,
    Eq,
    Gt,
    Lt,
    And,
    Or,
    Not,
    GoTo(Seq<char>),
    IfGoTo(Seq<char>),
    Label(Seq<char>),
    Function(Seq<char>, WordSize),
    Call(Seq<char>, WordSize),
    Class(Seq<char>),
    Return,
}

impl View for Command {
    type V = CommandView;

    open spec fn view(&self) -> CommandView {
        match self {
            Command::Pop(s, o) => CommandView::Pop(*s, *o),
            Command::Push(s, o) => CommandView::Push(*s, *o),
            Command::Add => CommandView::Add,
            Command::Sub => CommandView::Sub,
            Command::Neg => CommandView::Neg,
            Command::Eq => CommandView::Eq,
            Command::Gt => CommandView::Gt,
            Command::Lt => CommandView::Lt,
            Command::And => CommandView::And,
            Command::Or => CommandView::Or,
            Command::Not => CommandView::Not,
            Command::GoTo(l) => CommandView::GoTo(l@),
            Command::IfGoTo(l) => CommandView::IfGoTo(l@),
            Command::Label(l) => CommandView::Label(l@),
            Command::Function(n, v) => CommandView::Function(n@, *v),
            Command::Call(n, a) => CommandView::Call(n@, *a),
            Command::Class(n) => CommandView::Class(n@),
            Command::Return => CommandView::Return,
        }
    }
}

/// A command with the number of the line it was read from (counted from 0).
#[derive(Debug, Clone)]
pub struct VMCommand {
    pub command: Command,
    pub line: usize,
}

/// A command with its line, names taken as character sequences.
pub struct VMCommandView {
    pub command: CommandView,
    pub line: usize,
}

impl View for VMCommand {
    type V = VMCommandView;

    open spec fn view(&self) -> VMCommandView {
        VMCommandView { command: self.command@, line: self.line }
    }
}

impl VMCommand {
    fn new(command: Command, line: usize) -> (r: VMCommand)
        ensures
            r@ == (VMCommandView { command: command@, line }),
    {
        VMCommand { command, line }
    }
}

/// A function of the program: the line of its declaration, the number of its
/// local variables, its commands (the declaration first), and the table of its
/// labels, each with its line counted from the declaration.
#[derive(Debug, Clone)]
pub struct Function {
    pub start_line: usize,
    pub num_vars: WordSize,
    pub commands: Vec<VMCommand>,
    pub label_table: Vec<(String, usize)>,
}

/// A function with its commands and labels taken as plain values.
pub struct FunctionView {
    pub start_line: usize,
    pub num_vars: WordSize,
    pub commands: Seq<VMCommandView>,
    pub label_table: Seq<(Seq<char>, usize)>,
}

impl View for Function {
    type V = FunctionView;

    open spec fn view(&self) -> FunctionView {
        FunctionView {
            start_line: self.start_line,
            num_vars: self.num_vars,
            commands: self.commands@.map_values(|c: VMCommand| c@),
            label_table: self.label_table@.map_values(|p: (String, usize)| (p.0@, p.1)),
        }
    }
}

impl Function {
    /// Appends `command` to the function's commands.
    pub fn add_command(&mut self, command: VMCommand)
        ensures
            final(self)@ == (FunctionView {
                commands: old(self)@.commands.push(command@),
                ..old(self)@
            }),
    {
        self.commands.push(command);
        assert(self.commands@.map_values(|c: VMCommand| c@) =~= old(self)@.commands.push(
            command@,
        ));
    }
}

/// A parsed program: its functions, each under its full name
/// (`Class.function`), no name twice.
#[derive(Debug, Clone)]
pub struct Bytecode {
    pub functions: Vec<(String, Function)>,
}

impl View for Bytecode {
    type V = Seq<(Seq<char>, FunctionView)>;

    open spec fn view(&self) -> Seq<(Seq<char>, FunctionView)> {
        self.functions@.map_values(|p: (String, Function)| (p.0@, p.1@))
    }
}

fn add_to_function(program: &mut Bytecode, index: usize, command: VMCommand)
    requires
        index < old(program).functions.len(),
    ensures
        final(program)@ == old(program)@.update(
            index as int,
            (
                old(program)@[index as int].0,
                FunctionView {
                    commands: old(program)@[index as int].1.commands.push(command@),
                    ..old(program)@[index as int].1
                },
            ),
        ),
{
    let entry = &mut program.functions[index];
    entry.1.add_command(command);
    assert(program@ =~= old(program)@.update(
        index as int,
        (
            old(program)@[index as int].0,
            FunctionView {
                commands: old(program)@[index as int].1.commands.push(command@),
                ..old(program)@[index as int].1
            },
        ),
    ));
}

/// Why a program text is refused; `line` counts lines from 0.
#[derive(PartialEq, Eq, Debug, Clone)]
pub enum ParseError {
    /// A line of one word that names no command.
    InvalidZeroArgumentCommand { line: usize, word: String },
    /// A line of two words whose first names no command with one argument.
    InvalidOneArgumentCommand { line: usize, word: String },
    /// A `label` line before any `function` line.
    LabelOutsideFunction { line: usize },
    /// A label entered twice in one function: its location (counted from
    /// the function's declaration) now and the first time.
    DuplicateLabel { line: usize, label: String, location: usize, previous: usize },
    /// A line of three words whose third is no 16-bit integer.
    InvalidNumber { line: usize },
    /// A `push` or `pop` line that names no segment.
    InvalidSegment { line: usize, name: String },
    /// A line of three words whose first names no command with two arguments.
    InvalidTwoArgumentCommand { line: usize, word: String },
    /// A line of more than three words.
    InvalidSyntax { line: usize, words: usize },
}

/// A parse error with its words taken as character sequences.
pub enum ParseErrorView {
    InvalidZeroArgumentCommand { line: usize, word: Seq<char> },
    InvalidOneArgumentCommand { line: usize, word: Seq<char> },
    LabelOutsideFunction { line: usize },
    DuplicateLabel { line: usize, label: Seq<char>, location: usize, previous: usize },
    InvalidNumber { line: usize },
    InvalidSegment { line: usize, name: Seq<char> },
    InvalidTwoArgumentCommand { line: usize, word: Seq<char> },
    InvalidSyntax { line: usize, words: usize },
}

impl View for ParseError {
    type V = ParseErrorView;

    open spec fn view(&self) -> ParseErrorView {
        match self {
            ParseError::InvalidZeroArgumentCommand { line, word } => {
                ParseErrorView::InvalidZeroArgumentCommand { line: *line, word: word@ }
            },
            ParseError::InvalidOneArgumentCommand { line, word } => {
                ParseErrorView::InvalidOneArgumentCommand { line: *line, word: word@ }
            },
            ParseError::LabelOutsideFunction { line } => ParseErrorView::LabelOutsideFunction {
                line: *line,
            },
            ParseError::DuplicateLabel { line, label, location, previous } => {
                ParseErrorView::DuplicateLabel {
                    line: *line,
                    label: label@,
                    location: *location,
                    previous: *previous,
                }
            },
            ParseError::InvalidNumber { line } => ParseErrorView::InvalidNumber { line: *line },
            ParseError::InvalidSegment { line, name } => ParseErrorView::InvalidSegment {
                line: *line,
                name: name@,
            },
            ParseError::InvalidTwoArgumentCommand { line, word } => {
                ParseErrorView::InvalidTwoArgumentCommand { line: *line, word: word@ }
            },
            ParseError::InvalidSyntax { line, words } => ParseErrorView::InvalidSyntax {
                line: *line,
                words: *words,
            },
        }
    }
}

/// `i` is the first index of `table` whose entry has the name `key`.
pub open spec fn first_key_at<V>(table: Seq<(Seq<char>, V)>, key: Seq<char>, i: int) -> bool {
    &&& 0 <= i < table.len()
    &&& table[i].0 == key
    &&& forall|j: int| 0 <= j < i ==> table[j].0 != key
}

/// The first index of `table` whose entry has the name `key`, if any.
pub open spec fn key_index<V>(table: Seq<(Seq<char>, V)>, key: Seq<char>) -> Option<int> {
    if exists|i: int| first_key_at(table, key, i) {
        Some(choose|i: int| first_key_at(table, key, i))
    } else {
        None
    }
}

/// The segment that `name` names.
pub open spec fn segment_named(name: Seq<char>) -> Option<Segment> {
    if name == "pointer"@ {
        Some(Segment::Pointer)
    } else if name == "constant"@ {
        Some(Segment::Constant)
    } else if name == "local"@ {
        Some(Segment::Local)
    } else if name == "argument"@ {
        Some(Segment::Argument)
    } else if name == "static"@ {
        Some(Segment::Static)
    } else if name == "this"@ {
        Some(Segment::This)
    } else if name == "that"@ {
        Some(Segment::That)
    } else if name == "temp"@ {
        Some(Segment::Temp)
    } else {
        None
    }
}

/// The command without arguments that `word` names.
pub open spec fn zero_arg_command(word: Seq<char>) -> Option<CommandView> {
    if word == "add"@ {
        Some(CommandView::Add)
    } else if word == "sub"@ {
        Some(CommandView::Sub)
    } else if word == "neg"@ {
        Some(CommandView::Neg)
    } else if word == "eq"@ {
        Some(CommandView::Eq)
    } else if word == "gt"@ {
        Some(CommandView::Gt)
    } else if word == "lt"@ {
        Some(CommandView::Lt)
    } else if word == "and"@ {
        Some(CommandView::And)
    } else if word == "or"@ {
        Some(CommandView::Or)
    } else if word == "not"@ {
        Some(CommandView::Not)
    } else if word == "return"@ {
        Some(CommandView::Return)
    } else {
        None
    }
}

/// Where the parser stands between two lines: the functions read so far, the
/// name of the current class, and the index of the function that receives
/// the commands read.
pub struct ParseState {
    pub functions: Seq<(Seq<char>, FunctionView)>,
    pub class: Seq<char>,
    pub current: Option<int>,
}

/// The state before the first line.
pub open spec fn initial_state() -> ParseState {
    ParseState { functions: Seq::empty(), class: Seq::empty(), current: None }
}

/// A function declared at `line` with `num_vars` local variables, before any
/// command is added.
pub open spec fn fresh_function(line: usize, num_vars: WordSize) -> FunctionView {
    FunctionView { start_line: line, num_vars, commands: Seq::empty(), label_table: Seq::empty() }
}

/// The state after a function `name` is declared at `line`: it takes the
/// place of an earlier function of that name, or is added after the others,
/// and becomes the current function.
pub open spec fn declare_function(
    st: ParseState,
    name: Seq<char>,
    num_vars: WordSize,
    line: usize,
) -> ParseState {
    let f = fresh_function(line, num_vars);
    match key_index(st.functions, name) {
        Some(i) => ParseState { functions: st.functions.update(i, (name, f)), current: Some(i), ..st },
        None => ParseState {
            functions: st.functions.push((name, f)),
            current: Some(st.functions.len() as int),
            ..st
        },
    }
}

/// The state after `label` is entered, at `location`, in the table of the
/// function at index `i`.
pub open spec fn add_label(st: ParseState, i: int, label: Seq<char>, location: usize) -> ParseState {
    let (name, f) = st.functions[i];
    ParseState {
        functions: st.functions.update(
            i,
            (name, FunctionView { label_table: f.label_table.push((label, location)), ..f }),
        ),
        ..st
    }
}

/// The command that the words of a line at `line` give, and the state after
/// it, or why the line is refused.
pub open spec fn line_command(st: ParseState, words: Seq<Seq<char>>, line: usize) -> Result<
    (ParseState, CommandView),
    ParseErrorView,
> {
    if words.len() == 1 {
        match zero_arg_command(words[0]) {
            Some(c) => Ok((st, c)),
            None => Err(ParseErrorView::InvalidZeroArgumentCommand { line, word: words[0] }),
        }
    } else if words.len() == 2 {
        let op = words[0];
        let arg = words[1];
        if op == "class"@ {
            Ok((ParseState { class: arg, ..st }, CommandView::Class(arg)))
        } else if op == "goto"@ {
            Ok((st, CommandView::GoTo(arg)))
        } else if op == "if-goto"@ {
            Ok((st, CommandView::IfGoTo(arg)))
        } else if op == "label"@ {
            match st.current {
                None => Err(ParseErrorView::LabelOutsideFunction { line }),
                Some(i) => {
                    let f = st.functions[i].1;
                    let location = (line - f.start_line) as usize;
                    match key_index(f.label_table, arg) {
                        Some(j) => Err(
                            ParseErrorView::DuplicateLabel {
                                line,
                                label: arg,
                                location,
                                previous: f.label_table[j].1,
                            },
                        ),
                        None => Ok((add_label(st, i, arg, location), CommandView::Label(arg))),
                    }
                },
            }
        } else {
            Err(ParseErrorView::InvalidOneArgumentCommand { line, word: op })
        }
    } else if words.len() == 3 {
        match parse_i16_spec(words[2]) {
            None => Err(ParseErrorView::InvalidNumber { line }),
            Some(v) => {
                let op = words[0];
                let arg = words[1];
                if op == "pop"@ {
                    match segment_named(arg) {
                        Some(seg) => Ok((st, CommandView::Pop(seg, v))),
                        None => Err(ParseErrorView::InvalidSegment { line, name: arg }),
                    }
                } else if op == "push"@ {
                    match segment_named(arg) {
                        Some(seg) => Ok((st, CommandView::Push(seg, v))),
                        None => Err(ParseErrorView::InvalidSegment { line, name: arg }),
                    }
                } else if op == "function"@ {
                    let name = st.class.push('.') + arg;
                    Ok((declare_function(st, name, v, line), CommandView::Function(name, v)))
                } else if op == "call"@ {
                    Ok((st, CommandView::Call(arg, v)))
                } else {
                    Err(ParseErrorView::InvalidTwoArgumentCommand { line, word: op })
                }
            },
        }
    } else {
        Err(ParseErrorView::InvalidSyntax { line, words: words.len() as usize })
    }
}

/// The state after `cmd` is added to the current function, if there is one.
pub open spec fn add_to_current(st: ParseState, cmd: VMCommandView) -> ParseState {
    match st.current {
        Some(i) => {
            let (name, f) = st.functions[i];
            ParseState {
                functions: st.functions.update(
                    i,
                    (name, FunctionView { commands: f.commands.push(cmd), ..f }),
                ),
                ..st
            }
        },
        None => st,
    }
}

/// The state after the line `raw` at `line`: its comment and the white space
/// around it removed, a blank line changes nothing; otherwise its words,
/// separated by single spaces, give a command that goes to the current
/// function.
pub open spec fn parse_step(st: ParseState, raw: Seq<char>, line: usize) -> Result<
    ParseState,
    ParseErrorView,
> {
    let content = trim(strip_comment(raw));
    if content.len() == 0 {
        Ok(st)
    } else {
        match line_command(st, split_on(content, ' '), line) {
            Ok((next, c)) => Ok(add_to_current(next, VMCommandView { command: c, line })),
            Err(e) => Err(e),
        }
    }
}

/// The state after the first `n` of `ls`, or the error of the first line
/// that is refused.
pub open spec fn parse_lines(ls: Seq<Seq<char>>, n: nat) -> Result<ParseState, ParseErrorView>
    decreases n,
{
    if n == 0 {
        Ok(initial_state())
    } else {
        match parse_lines(ls, (n - 1) as nat) {
            Ok(st) => parse_step(st, ls[n - 1], (n - 1) as usize),
            Err(e) => Err(e),
        }
    }
}

/// The functions of the program `text`, or why it is refused.
pub open spec fn parse_spec(text: Seq<char>) -> Result<Seq<(Seq<char>, FunctionView)>, ParseErrorView> {
    match parse_lines(lines(text), lines(text).len()) {
        Ok(st) => Ok(st.functions),
        Err(e) => Err(e),
    }
}

/// The parse state that the parser's variables stand for.
pub open spec fn exec_state(
    functions: Seq<(Seq<char>, FunctionView)>,
    class: Seq<char>,
    current: Option<usize>,
) -> ParseState {
    ParseState {
        functions,
        class,
        current: match current {
            Some(i) => Some(i as int),
            None => None,
        },
    }
}

/// The current function exists, and no function was declared after `line`.
pub open spec fn state_ok(
    functions: Seq<(Seq<char>, FunctionView)>,
    current: Option<usize>,
    line: usize,
) -> bool {
    &&& current matches Some(i) ==> i < functions.len()
    &&& forall|k: int| 0 <= k < functions.len() ==> (#[trigger] functions[k]).1.start_line <= line
}

/// The words that `ranges` mark in `chars`.
pub open spec fn words_of(chars: Seq<char>, ranges: Seq<(usize, usize)>) -> Seq<Seq<char>> {
    ranges.map_values(|r: (usize, usize)| chars.subrange(r.0 as int, r.1 as int))
}

/// `String::push`: appends the character `c` to the end of `s`.
#[verifier::external_body]
fn push_char(s: &mut String, c: char)
    ensures
        final(s)@ == old(s)@.push(c),
{
    s.push(c);
}

/// Appends `chars[start..end]` to `s`.
fn append_range(s: &mut String, chars: &Vec<char>, start: usize, end: usize)
    requires
        start <= end <= chars.len(),
    ensures
        final(s)@ == old(s)@ + chars@.subrange(start as int, end as int),
{
    let mut i: usize = start;
    while i < end
        invariant
            start <= i <= end <= chars.len(),
            s@ == old(s)@ + chars@.subrange(start as int, i as int),
        decreases end - i,
    {
        push_char(s, chars[i]);
        i = i + 1;
        assert(s@ =~= old(s)@ + chars@.subrange(start as int, i as int));
    }
}

/// The text `chars[start..end]`.
fn string_of(chars: &Vec<char>, start: usize, end: usize) -> (r: String)
    requires
        start <= end <= chars.len(),
    ensures
        r@ == chars@.subrange(start as int, end as int),
{
    let mut r = String::new();
    append_range(&mut r, chars, start, end);
    assert(r@ =~= chars@.subrange(start as int, end as int));
    r
}

/// The segment that `chars[start..end]` names.
fn segment_of(chars: &Vec<char>, start: usize, end: usize) -> (r: Option<Segment>)
    requires
        start <= end <= chars.len(),
    ensures
        r == segment_named(chars@.subrange(start as int, end as int)),
{
    if range_is(chars, start, end, "pointer") {
        Some(Segment::Pointer)
    } else if range_is(chars, start, end, "constant") {
        Some(Segment::Constant)
    } else if range_is(chars, start, end, "local") {
        Some(Segment::Local)
    } else if range_is(chars, start, end, "argument") {
        Some(Segment::Argument)
    } else if range_is(chars, start, end, "static") {
        Some(Segment::Static)
    } else if range_is(chars, start, end, "this") {
        Some(Segment::This)
    } else if range_is(chars, start, end, "that") {
        Some(Segment::That)
    } else if range_is(chars, start, end, "temp") {
        Some(Segment::Temp)
    } else {
        None
    }
}

/// The segment that `seg_name` names, if any.
pub fn parse_segment(seg_name: &str) -> (r: Option<Segment>)
    ensures
        r == segment_named(seg_name@),
{
    let chars = text_chars(seg_name);
    assert(chars@.subrange(0, chars.len() as int) =~= seg_name@);
    segment_of(&chars, 0, chars.len())
}

/// The command without arguments that `chars[start..end]` names.
fn zero_arg_of(chars: &Vec<char>, start: usize, end: usize) -> (r: Option<Command>)
    requires
        start <= end <= chars.len(),
    ensures
        match r {
            Some(c) => zero_arg_command(chars@.subrange(start as int, end as int)) == Some(c@),
            None => zero_arg_command(chars@.subrange(start as int, end as int)) is None,
        },
{
    if range_is(chars, start, end, "add") {
        Some(Command::Add)
    } else if range_is(chars, start, end, "sub") {
        Some(Command::Sub)
    } else if range_is(chars, start, end, "neg") {
        Some(Command::Neg)
    } else if range_is(chars, start, end, "eq") {
        Some(Command::Eq)
    } else if range_is(chars, start, end, "gt") {
        Some(Command::Gt)
    } else if range_is(chars, start, end, "lt") {
        Some(Command::Lt)
    } else if range_is(chars, start, end, "and") {
        Some(Command::And)
    } else if range_is(chars, start, end, "or") {
        Some(Command::Or)
    } else if range_is(chars, start, end, "not") {
        Some(Command::Not)
    } else if range_is(chars, start, end, "return") {
        Some(Command::Return)
    } else {
        None
    }
}

/// The index of the first entry of `table` named `key`.
fn label_index(table: &Vec<(String, usize)>, key: &String) -> (r: Option<usize>)
    ensures
        match r {
            Some(i) => key_index(table@.map_values(|p: (String, usize)| (p.0@, p.1)), key@) == Some(
                i as int,
            ),
            None => key_index(table@.map_values(|p: (String, usize)| (p.0@, p.1)), key@) is None,
        },
{
    let ghost view = table@.map_values(|p: (String, usize)| (p.0@, p.1));
    let mut i: usize = 0;
    while i < table.len()
        invariant
            i <= table.len(),
            view == table@.map_values(|p: (String, usize)| (p.0@, p.1)),
            forall|j: int| 0 <= j < i ==> view[j].0 != key@,
        decreases table.len() - i,
    {
        if table[i].0 == *key {
            assert(first_key_at(view, key@, i as int));
            assert forall|k: int| first_key_at(view, key@, k) implies k == i as int by {
                if k < i {
                    assert(view[k].0 != key@);
                } else if k > i {
                    assert(view[i as int].0 == key@);
                }
            }
            return Some(i);
        }
        i = i + 1;
    }
    None
}

impl Bytecode {
    /// The index of the first function named `name`.
    fn index_of(&self, name: &String) -> (r: Option<usize>)
        ensures
            match r {
                Some(i) => key_index(self@, name@) == Some(i as int),
                None => key_index(self@, name@) is None,
            },
    {
        let mut i: usize = 0;
        while i < self.functions.len()
            invariant
                i <= self.functions.len(),
                forall|j: int| 0 <= j < i ==> self@[j].0 != name@,
            decreases self.functions.len() - i,
        {
            if self.functions[i].0 == *name {
                assert(first_key_at(self@, name@, i as int));
                assert forall|k: int| first_key_at(self@, name@, k) implies k == i as int by {
                    if k < i {
                        assert(self@[k].0 != name@);
                    } else if k > i {
                        assert(self@[i as int].0 == name@);
                    }
                }
                return Some(i);
            }
            i = i + 1;
        }
        None
    }

    /// The function named `name`, if there is one.
    pub fn function(&self, name: &str) -> (r: Option<&Function>)
        ensures
            match key_index(self@, name@) {
                Some(i) => r matches Some(f) && f@ == self@[i].1,
                None => r is None,
            },
    {
        let key = name.to_owned();
        match self.index_of(&key) {
            Some(i) => Some(&self.functions[i].1),
            None => None,
        }
    }

    fn add_label_at(&mut self, index: usize, label: String, location: usize)
        requires
            index < old(self).functions.len(),
        ensures
            final(self)@ == add_label(
                exec_state(old(self)@, Seq::empty(), None),
                index as int,
                label@,
                location,
            ).functions,
    {
        let entry = &mut self.functions[index];
        entry.1.label_table.push((label, location));
        assert(self.functions@[index as int].1@.label_table =~= old(self)@[index as int].1.label_table.push(
            (label@, location),
        ));
        assert(self.functions@[index as int].1@.commands =~= old(self)@[index as int].1.commands);
        assert(self@ =~= add_label(
            exec_state(old(self)@, Seq::empty(), None),
            index as int,
            label@,
            location,
        ).functions);
    }
}

/// Reads the command that the words of the line at `line` give, updating
/// the functions, the class and the current function as the line asks.
fn parse_words(
    program: &mut Bytecode,
    class: &mut String,
    current: &mut Option<usize>,
    chars: &Vec<char>,
    words: &Vec<(usize, usize)>,
    line: usize,
) -> (r: Result<Command, ParseError>)
    requires
        forall|k: int| 0 <= k < words.len() ==> (#[trigger] words@[k]).0 <= words@[k].1 <= chars.len(),
        state_ok(old(program)@, *old(current), line),
    ensures
        match line_command(
            exec_state(old(program)@, old(class)@, *old(current)),
            words_of(chars@, words@),
            line,
        ) {
            Ok((next, c)) => r matches Ok(cmd) && cmd@ == c && exec_state(
                final(program)@,
                final(class)@,
                *final(current),
            ) == next,
            Err(e) => r matches Err(err) && err@ == e,
        },
        state_ok(final(program)@, *final(current), line),
{
    let ghost ws = words_of(chars@, words@);
    let n = words.len();
    if n == 1 {
        let (s, e) = words[0];
        assert(ws[0] == chars@.subrange(s as int, e as int));
        match zero_arg_of(chars, s, e) {
            Some(c) => Ok(c),
            None => Err(
                ParseError::InvalidZeroArgumentCommand { line, word: string_of(chars, s, e) },
            ),
        }
    } else if n == 2 {
        let (os, oe) = words[0];
        let (arg_s, arg_e) = words[1];
        assert(ws[0] == chars@.subrange(os as int, oe as int));
        assert(ws[1] == chars@.subrange(arg_s as int, arg_e as int));
        if range_is(chars, os, oe, "class") {
            let name = string_of(chars, arg_s, arg_e);
            *class = name.clone();
            Ok(Command::Class(name))
        } else if range_is(chars, os, oe, "goto") {
            Ok(Command::GoTo(string_of(chars, arg_s, arg_e)))
        } else if range_is(chars, os, oe, "if-goto") {
            Ok(Command::IfGoTo(string_of(chars, arg_s, arg_e)))
        } else if range_is(chars, os, oe, "label") {
            match *current {
                None => Err(ParseError::LabelOutsideFunction { line }),
                Some(i) => {
                    let label = string_of(chars, arg_s, arg_e);
                    assert(program@[i as int].1.start_line <= line);
                    let location = line - program.functions[i].1.start_line;
                    match label_index(&program.functions[i].1.label_table, &label) {
                        Some(j) => {
                            let previous = program.functions[i].1.label_table[j].1;
                            Err(ParseError::DuplicateLabel { line, label, location, previous })
                        },
                        None => {
                            program.add_label_at(i, label.clone(), location);
                            Ok(Command::Label(label))
                        },
                    }
                },
            }
        } else {
            Err(
                ParseError::InvalidOneArgumentCommand { line, word: string_of(chars, os, oe) },
            )
        }
    } else if n == 3 {
        let (os, oe) = words[0];
        let (arg_s, arg_e) = words[1];
        let (num_s, num_e) = words[2];
        assert(ws[0] == chars@.subrange(os as int, oe as int));
        assert(ws[1] == chars@.subrange(arg_s as int, arg_e as int));
        assert(ws[2] == chars@.subrange(num_s as int, num_e as int));
        match parse_i16(chars, num_s, num_e) {
            None => Err(ParseError::InvalidNumber { line }),
            Some(v) => {
                if range_is(chars, os, oe, "pop") {
                    match segment_of(chars, arg_s, arg_e) {
                        Some(seg) => Ok(Command::Pop(seg, v)),
                        None => Err(
                            ParseError::InvalidSegment {
                                line,
                                name: string_of(chars, arg_s, arg_e),
                            },
                        ),
                    }
                } else if range_is(chars, os, oe, "push") {
                    match segment_of(chars, arg_s, arg_e) {
                        Some(seg) => Ok(Command::Push(seg, v)),
                        None => Err(
                            ParseError::InvalidSegment {
                                line,
                                name: string_of(chars, arg_s, arg_e),
                            },
                        ),
                    }
                } else if range_is(chars, os, oe, "function") {
                    let mut name = class.clone();
                    push_char(&mut name, '.');
                    append_range(&mut name, chars, arg_s, arg_e);
                    let f = Function {
                        start_line: line,
                        num_vars: v,
                        commands: Vec::new(),
                        label_table: Vec::new(),
                    };
                    assert(f@.commands =~= Seq::<VMCommandView>::empty());
                    assert(f@.label_table =~= Seq::<(Seq<char>, usize)>::empty());
                    assert(f@ == fresh_function(line, v));
                    match program.index_of(&name) {
                        Some(i) => {
                            program.functions.set(i, (name.clone(), f));
                            *current = Some(i);
                        },
                        None => {
                            program.functions.push((name.clone(), f));
                            *current = Some(program.functions.len() - 1);
                        },
                    }
                    let ghost st = exec_state(old(program)@, old(class)@, *old(current));
                    assert(program@ =~= declare_function(st, name@, v, line).functions);
                    Ok(Command::Function(name, v))
                } else if range_is(chars, os, oe, "call") {
                    Ok(Command::Call(string_of(chars, arg_s, arg_e), v))
                } else {
                    Err(
                        ParseError::InvalidTwoArgumentCommand {
                            line,
                            word: string_of(chars, os, oe),
                        },
                    )
                }
            },
        }
    } else {
        Err(ParseError::InvalidSyntax { line, words: n })
    }
}

proof fn lemma_error_persists(ls: Seq<Seq<char>>, n: nat, m: nat)
    requires
        parse_lines(ls, n) is Err,
        n <= m,
    ensures
        parse_lines(ls, m) == parse_lines(ls, n),
    decreases m - n,
{
    if n < m {
        lemma_error_persists(ls, n, (m - 1) as nat);
    }
}

/// Parses a program text into its functions, or says why the text is
/// refused.
pub fn parse_bytecode(text: &str) -> (r: Result<Bytecode, ParseError>)
    ensures
        match r {
            Ok(b) => parse_spec(text@) == Ok::<Seq<(Seq<char>, FunctionView)>, ParseErrorView>(b@),
            Err(e) => parse_spec(text@) == Err::<Seq<(Seq<char>, FunctionView)>, ParseErrorView>(e@),
        },
{
    let chars = text_chars(text);
    let ranges = line_ranges(&chars);
    let ghost ls = lines(chars@);
    let mut program = Bytecode { functions: Vec::new() };
    let mut class = String::new();
    let mut current: Option<usize> = None;
    let mut line: usize = 0;
    assert(program@ =~= Seq::empty());
    while line < ranges.len()
        invariant
            chars@ == text@,
            ls == lines(chars@),
            ranges.len() == ls.len(),
            forall|k: int|
                0 <= k < ranges.len() ==> {
                    &&& (#[trigger] ranges@[k]).0 <= ranges@[k].1 <= chars.len()
                    &&& chars@.subrange(ranges@[k].0 as int, ranges@[k].1 as int) == ls[k]
                },
            line <= ranges.len(),
            parse_lines(ls, line as nat) == Ok::<ParseState, ParseErrorView>(
                exec_state(program@, class@, current),
            ),
            state_ok(program@, current, line),
        decreases ranges.len() - line,
    {
        let (line_start, line_end) = ranges[line];
        let content_end = comment_start(&chars, line_start, line_end);
        let (ts, te) = trim_range(&chars, line_start, content_end);
        let ghost st = exec_state(program@, class@, current);
        let ghost content = chars@.subrange(ts as int, te as int);
        assert(content == trim(strip_comment(ls[line as int])));
        assert(parse_lines(ls, (line + 1) as nat) == parse_step(st, ls[line as int], line));
        if ts < te {
            let words = split_ranges(&chars, ts, te, ' ');
            assert(words_of(chars@, words@) =~= split_on(content, ' '));
            match parse_words(&mut program, &mut class, &mut current, &chars, &words, line) {
                Ok(cmd) => {
                    if let Some(i) = current {
                        add_to_function(&mut program, i, VMCommand::new(cmd, line));
                    }
                    let ghost stepped = parse_step(st, ls[line as int], line);
                    assert(stepped == Ok::<ParseState, ParseErrorView>(exec_state(program@, class@, current)));
                },
                Err(e) => {
                    proof {
                        lemma_error_persists(ls, (line + 1) as nat, ls.len());
                    }
                    return Err(e);
                },
            }
        }
        line = line + 1;
    }
    Ok(program)
}

/// The `j`-th label of `f` marks a `label` command of `f` at the line that
/// its location gives.
pub open spec fn label_declared(f: FunctionView, j: int) -> bool {
    exists|i: int|
        0 <= i < f.commands.len() && #[trigger] f.commands[i] == (VMCommandView {
            command: CommandView::Label(f.label_table[j].0),
            line: (f.start_line + f.label_table[j].1) as usize,
        })
}

/// A function as the parser builds it: its first command is its own
/// declaration, no command comes from a line before it, every label of its
/// table marks one of its `label` commands, and no label is entered twice.
pub open spec fn function_wf(name: Seq<char>, f: FunctionView) -> bool {
    &&& f.commands.len() >= 1
    &&& f.commands[0] == (VMCommandView {
        command: CommandView::Function(name, f.num_vars),
        line: f.start_line,
    })
    &&& forall|i: int| 0 <= i < f.commands.len() ==> f.start_line <= (#[trigger] f.commands[i]).line
    &&& forall|j: int| 0 <= j < f.label_table.len() ==> #[trigger] label_declared(f, j)
    &&& forall|j: int, k: int|
        0 <= j < k < f.label_table.len() ==> #[trigger] f.label_table[j].0
            != #[trigger] f.label_table[k].0
}

/// The functions of a parsed program: no two share a name, and each is built
/// as `function_wf` says.
pub open spec fn bytecode_wf(fs: Seq<(Seq<char>, FunctionView)>) -> bool {
    &&& forall|j: int, k: int| 0 <= j < k < fs.len() ==> #[trigger] fs[j].0 != #[trigger] fs[k].0
    &&& forall|k: int| 0 <= k < fs.len() ==> function_wf(#[trigger] fs[k].0, fs[k].1)
}

/// What holds of the parse state after `n` lines.
pub open spec fn state_inv(st: ParseState, n: int) -> bool {
    &&& st.current matches Some(i) ==> 0 <= i < st.functions.len()
    &&& forall|k: int| 0 <= k < st.functions.len() ==> (#[trigger] st.functions[k]).1.start_line < n
    &&& bytecode_wf(st.functions)
}

proof fn lemma_push_keeps_function_wf(name: Seq<char>, f: FunctionView, cmd: VMCommandView)
    requires
        function_wf(name, f),
        f.start_line <= cmd.line,
    ensures
        function_wf(name, FunctionView { commands: f.commands.push(cmd), ..f }),
{
    let g = FunctionView { commands: f.commands.push(cmd), ..f };
    assert forall|j: int| 0 <= j < g.label_table.len() implies #[trigger] label_declared(g, j) by {
        assert(label_declared(f, j));
        let i = choose|i: int|
            0 <= i < f.commands.len() && #[trigger] f.commands[i] == (VMCommandView {
                command: CommandView::Label(f.label_table[j].0),
                line: (f.start_line + f.label_table[j].1) as usize,
            });
        assert(g.commands[i] == f.commands[i]);
    }
}

proof fn lemma_step_keeps_inv(st: ParseState, raw: Seq<char>, line: usize)
    requires
        state_inv(st, line as int),
        parse_step(st, raw, line) is Ok,
    ensures
        state_inv(parse_step(st, raw, line)->Ok_0, line + 1),
{
    let content = trim(strip_comment(raw));
    if content.len() == 0 {
        return ;
    }
    let words = split_on(content, ' ');
    let (next, c) = line_command(st, words, line)->Ok_0;
    let cmd = VMCommandView { command: c, line };
    let after = add_to_current(next, cmd);
    assert(parse_step(st, raw, line)->Ok_0 == after);
    if words.len() == 2 && words[0] != "class"@ && words[0] != "goto"@ && words[0] != "if-goto"@ {
        // a `label` line
        let i = st.current->0;
        let (name, f) = st.functions[i];
        let arg = words[1];
        let location = (line - f.start_line) as usize;
        let labelled = FunctionView { label_table: f.label_table.push((arg, location)), ..f };
        let g = FunctionView { commands: labelled.commands.push(cmd), ..labelled };
        assert(after.functions == st.functions.update(i, (name, g)));
        assert(function_wf(name, f));
        assert forall|j: int| 0 <= j < g.label_table.len() implies #[trigger] label_declared(g, j) by {
            if j < f.label_table.len() {
                assert(label_declared(f, j));
                let k = choose|k: int|
                    0 <= k < f.commands.len() && #[trigger] f.commands[k] == (VMCommandView {
                        command: CommandView::Label(f.label_table[j].0),
                        line: (f.start_line + f.label_table[j].1) as usize,
                    });
                assert(g.commands[k] == f.commands[k]);
            } else {
                assert(g.commands[g.commands.len() - 1] == cmd);
            }
        }
        assert forall|j: int, k: int| 0 <= j < k < g.label_table.len() implies #[trigger] g.label_table[j].0
            != #[trigger] g.label_table[k].0 by {
            if k == f.label_table.len() {
                assert(key_index(f.label_table, arg) is None);
                if f.label_table[j].0 == arg {
                    assert forall|m: int| 0 <= m < j implies f.label_table[m].0 != arg by {
                        assert(f.label_table[m].0 != f.label_table[j].0);
                    }
                    assert(first_key_at(f.label_table, arg, j));
                }
                assert(g.label_table[j] == f.label_table[j]);
            }
        }
        assert(function_wf(name, g));
        assert forall|k: int| 0 <= k < after.functions.len() implies function_wf(
            #[trigger] after.functions[k].0,
            after.functions[k].1,
        ) by {
            if k != i {
                assert(after.functions[k] == st.functions[k]);
            }
        }
        assert(bytecode_wf(after.functions));
    } else if words.len() == 3 && words[0] != "pop"@ && words[0] != "push"@ && words[0]
        == "function"@ {
        // a `function` line
        let v = parse_i16_spec(words[2])->0;
        let name = st.class.push('.') + words[1];
        let f = fresh_function(line, v);
        let g = FunctionView { commands: f.commands.push(cmd), ..f };
        assert(next == declare_function(st, name, v, line));
        assert(g.commands =~= seq![cmd]);
        assert(function_wf(name, g));
        match key_index(st.functions, name) {
            Some(i) => {
                assert(first_key_at(st.functions, name, i));
                assert(after.functions == st.functions.update(i, (name, g)));
                assert forall|k: int| 0 <= k < after.functions.len() implies function_wf(
                    #[trigger] after.functions[k].0,
                    after.functions[k].1,
                ) by {
                    if k != i {
                        assert(after.functions[k] == st.functions[k]);
                    }
                }
            },
            None => {
                let n = st.functions.len() as int;
                assert(after.functions == st.functions.push((name, g)));
                assert forall|j: int| 0 <= j < n implies st.functions[j].0 != name by {
                    if st.functions[j].0 == name {
                        assert forall|m: int| 0 <= m < j implies st.functions[m].0 != name by {
                            assert(st.functions[m].0 != st.functions[j].0);
                        }
                        assert(first_key_at(st.functions, name, j));
                    }
                }
                assert forall|k: int| 0 <= k < after.functions.len() implies function_wf(
                    #[trigger] after.functions[k].0,
                    after.functions[k].1,
                ) by {
                    if k != n {
                        assert(after.functions[k] == st.functions[k]);
                    }
                }
            },
        }
        assert(bytecode_wf(after.functions));
    } else {
        // the line leaves the functions as they were but for the command added
        assert(next.functions == st.functions);
        assert(next.current == st.current);
        match st.current {
            Some(i) => {
                let (name, f) = st.functions[i];
                assert(function_wf(name, f));
                lemma_push_keeps_function_wf(name, f, cmd);
                assert forall|k: int| 0 <= k < after.functions.len() implies function_wf(
                    #[trigger] after.functions[k].0,
                    after.functions[k].1,
                ) by {
                    if k != i {
                        assert(after.functions[k] == st.functions[k]);
                    }
                }
            },
            None => {},
        }
        assert(bytecode_wf(after.functions));
    }
}

proof fn lemma_parse_lines_inv(ls: Seq<Seq<char>>, n: nat)
    requires
        parse_lines(ls, n) is Ok,
        n <= ls.len(),
        ls.len() <= usize::MAX,
    ensures
        state_inv(parse_lines(ls, n)->Ok_0, n as int),
    decreases n,
{
    if n > 0 {
        lemma_parse_lines_inv(ls, (n - 1) as nat);
        lemma_step_keeps_inv(parse_lines(ls, (n - 1) as nat)->Ok_0, ls[n - 1], (n - 1) as usize);
    }
}

/// In a program that parses, no two functions share a name; every function
/// begins with its own declaration, at its start line, and holds no command
/// from an earlier line; and each function's label table names distinct
/// labels, each at the line of a `label` command of that function.
pub proof fn lemma_parsed_program_wf(text: Seq<char>)
    requires
        parse_spec(text) is Ok,
        lines(text).len() <= usize::MAX,
    ensures
        bytecode_wf(parse_spec(text)->Ok_0),
{
    lemma_parse_lines_inv(lines(text), lines(text).len());
}

/// The line that an error names.
pub open spec fn error_line(e: ParseErrorView) -> usize {
    match e {
        ParseErrorView::InvalidZeroArgumentCommand { line, .. } => line,
        ParseErrorView::InvalidOneArgumentCommand { line, .. } => line,
        ParseErrorView::LabelOutsideFunction { line, .. } => line,
        ParseErrorView::DuplicateLabel { line, .. } => line,
        ParseErrorView::InvalidNumber { line, .. } => line,
        ParseErrorView::InvalidSegment { line, .. } => line,
        ParseErrorView::InvalidTwoArgumentCommand { line, .. } => line,
        ParseErrorView::InvalidSyntax { line, .. } => line,
    }
}

proof fn lemma_step_error_line(st: ParseState, raw: Seq<char>, line: usize)
    requires
        parse_step(st, raw, line) is Err,
    ensures
        error_line(parse_step(st, raw, line)->Err_0) == line,
{
}

proof fn lemma_parse_lines_error_line(ls: Seq<Seq<char>>, n: nat)
    requires
        parse_lines(ls, n) is Err,
        n <= ls.len() <= usize::MAX,
    ensures
        error_line(parse_lines(ls, n)->Err_0) < n,
    decreases n,
{
    if n > 0 {
        if parse_lines(ls, (n - 1) as nat) is Err {
            lemma_parse_lines_error_line(ls, (n - 1) as nat);
        } else {
            lemma_step_error_line(parse_lines(ls, (n - 1) as nat)->Ok_0, ls[n - 1], (n - 1) as usize);
        }
    }
}

/// A refused text is refused for one of its lines: the error names a line
/// that the text has, and every line before it parses.
pub proof fn lemma_error_names_a_line(text: Seq<char>)
    requires
        parse_spec(text) is Err,
        lines(text).len() <= usize::MAX,
    ensures
        error_line(parse_spec(text)->Err_0) < lines(text).len(),
        parse_lines(lines(text), error_line(parse_spec(text)->Err_0) as nat) is Ok,
{
    let ls = lines(text);
    lemma_parse_lines_error_line(ls, ls.len());
    lemma_first_error(ls, ls.len());
}

proof fn lemma_first_error(ls: Seq<Seq<char>>, n: nat)
    requires
        parse_lines(ls, n) is Err,
        n <= ls.len() <= usize::MAX,
    ensures
        parse_lines(ls, error_line(parse_lines(ls, n)->Err_0) as nat) is Ok,
    decreases n,
{
    if parse_lines(ls, (n - 1) as nat) is Err {
        lemma_first_error(ls, (n - 1) as nat);
    } else {
        lemma_step_error_line(parse_lines(ls, (n - 1) as nat)->Ok_0, ls[n - 1], (n - 1) as usize);
    }
}

proof fn lemma_parse_lines_without_comments(ls: Seq<Seq<char>>, n: nat)
    requires
        n <= ls.len(),
    ensures
        parse_lines(ls.map_values(|l: Seq<char>| strip_comment(l)), n) == parse_lines(ls, n),
    decreases n,
{
    let stripped = ls.map_values(|l: Seq<char>| strip_comment(l));
    if n > 0 {
        lemma_parse_lines_without_comments(ls, (n - 1) as nat);
        lemma_strip_comment_idempotent(ls[n - 1]);
        assert(stripped[n - 1] == strip_comment(ls[n - 1]));
    }
}

/// Comments do not matter: a text whose lines are those of `text`, each cut
/// at its first `//`, parses exactly as `text` does, to the same functions
/// or the same error.
pub proof fn lemma_comments_do_not_matter(text: Seq<char>, stripped: Seq<char>)
    requires
        lines(stripped) == lines(text).map_values(|l: Seq<char>| strip_comment(l)),
    ensures
        parse_spec(stripped) == parse_spec(text),
{
    lemma_parse_lines_without_comments(lines(text), lines(text).len());
}

/// The words of the bytecode, spelled out.
proof fn lemma_spellings()
    ensures
        "add"@ == seq!['a', 'd', 'd'],
        "sub"@ == seq!['s', 'u', 'b'],
        "neg"@ == seq!['n', 'e', 'g'],
        "eq"@ == seq!['e', 'q'],
        "gt"@ == seq!['g', 't'],
        "lt"@ == seq!['l', 't'],
        "and"@ == seq!['a', 'n', 'd'],
        "or"@ == seq!['o', 'r'],
        "not"@ == seq!['n', 'o', 't'],
        "return"@ == seq!['r', 'e', 't', 'u', 'r', 'n'],
        "pointer"@ == seq!['p', 'o', 'i', 'n', 't', 'e', 'r'],
        "constant"@ == seq!['c', 'o', 'n', 's', 't', 'a', 'n', 't'],
        "local"@ == seq!['l', 'o', 'c', 'a', 'l'],
        "argument"@ == seq!['a', 'r', 'g', 'u', 'm', 'e', 'n', 't'],
        "static"@ == seq!['s', 't', 'a', 't', 'i', 'c'],
        "this"@ == seq!['t', 'h', 'i', 's'],
        "that"@ == seq!['t', 'h', 'a', 't'],
        "temp"@ == seq!['t', 'e', 'm', 'p'],
        "class"@ == seq!['c', 'l', 'a', 's', 's'],
        "goto"@ == seq!['g', 'o', 't', 'o'],
        "if-goto"@ == seq!['i', 'f', '-', 'g', 'o', 't', 'o'],
        "label"@ == seq!['l', 'a', 'b', 'e', 'l'],
        "pop"@ == seq!['p', 'o', 'p'],
        "push"@ == seq!['p', 'u', 's', 'h'],
        "function"@ == seq!['f', 'u', 'n', 'c', 't', 'i', 'o', 'n'],
        "call"@ == seq!['c', 'a', 'l', 'l'],
{
    reveal_strlit("add");
    assert("add"@ =~= seq!['a', 'd', 'd']);
    reveal_strlit("sub");
    assert("sub"@ =~= seq!['s', 'u', 'b']);
    reveal_strlit("neg");
    assert("neg"@ =~= seq!['n', 'e', 'g']);
    reveal_strlit("eq");
    assert("eq"@ =~= seq!['e', 'q']);
    reveal_strlit("gt");
    assert("gt"@ =~= seq!['g', 't']);
    reveal_strlit("lt");
    assert("lt"@ =~= seq!['l', 't']);
    reveal_strlit("and");
    assert("and"@ =~= seq!['a', 'n', 'd']);
    reveal_strlit("or");
    assert("or"@ =~= seq!['o', 'r']);
    reveal_strlit("not");
    assert("not"@ =~= seq!['n', 'o', 't']);
    reveal_strlit("return");
    assert("return"@ =~= seq!['r', 'e', 't', 'u', 'r', 'n']);
    reveal_strlit("pointer");
    assert("pointer"@ =~= seq!['p', 'o', 'i', 'n', 't', 'e', 'r']);
    reveal_strlit("constant");
    assert("constant"@ =~= seq!['c', 'o', 'n', 's', 't', 'a', 'n', 't']);
    reveal_strlit("local");
    assert("local"@ =~= seq!['l', 'o', 'c', 'a', 'l']);
    reveal_strlit("argument");
    assert("argument"@ =~= seq!['a', 'r', 'g', 'u', 'm', 'e', 'n', 't']);
    reveal_strlit("static");
    assert("static"@ =~= seq!['s', 't', 'a', 't', 'i', 'c']);
    reveal_strlit("this");
    assert("this"@ =~= seq!['t', 'h', 'i', 's']);
    reveal_strlit("that");
    assert("that"@ =~= seq!['t', 'h', 'a', 't']);
    reveal_strlit("temp");
    assert("temp"@ =~= seq!['t', 'e', 'm', 'p']);
    reveal_strlit("class");
    assert("class"@ =~= seq!['c', 'l', 'a', 's', 's']);
    reveal_strlit("goto");
    assert("goto"@ =~= seq!['g', 'o', 't', 'o']);
    reveal_strlit("if-goto");
    assert("if-goto"@ =~= seq!['i', 'f', '-', 'g', 'o', 't', 'o']);
    reveal_strlit("label");
    assert("label"@ =~= seq!['l', 'a', 'b', 'e', 'l']);
    reveal_strlit("pop");
    assert("pop"@ =~= seq!['p', 'o', 'p']);
    reveal_strlit("push");
    assert("push"@ =~= seq!['p', 'u', 's', 'h']);
    reveal_strlit("function");
    assert("function"@ =~= seq!['f', 'u', 'n', 'c', 't', 'i', 'o', 'n']);
    reveal_strlit("call");
    assert("call"@ =~= seq!['c', 'a', 'l', 'l']);
}

/// The name of a command without arguments.
pub open spec fn zero_arg_name(c: CommandView) -> Seq<char> {
    match c {
        CommandView::Add => "add"@,
        CommandView::Sub => "sub"@,
        CommandView::Neg => "neg"@,
        CommandView::Eq => "eq"@,
        CommandView::Gt => "gt"@,
        CommandView::Lt => "lt"@,
        CommandView::And => "and"@,
        CommandView::Or => "or"@,
        CommandView::Not => "not"@,
        CommandView::Return => "return"@,
        _ => Seq::empty(),
    }
}

/// `c` is a command without arguments.
pub open spec fn is_zero_arg(c: CommandView) -> bool {
    ||| c is Add
    ||| c is Sub
    ||| c is Neg
    ||| c is Eq
    ||| c is Gt
    ||| c is Lt
    ||| c is And
    ||| c is Or
    ||| c is Not
    ||| c is Return
}


/// A one-word line names a command without arguments exactly when the word
/// is that command's name, and it names no other command.
pub proof fn lemma_zero_arg_names(word: Seq<char>, c: CommandView)
    ensures
        is_zero_arg(c) ==> (zero_arg_command(word) == Some(c) <==> word == zero_arg_name(c)),
        zero_arg_command(word) matches Some(d) ==> is_zero_arg(d),
{
    lemma_spellings();
    if is_zero_arg(c) && word == zero_arg_name(c) {
        assert(zero_arg_command(word) == Some(c));
    }
}

/// The name of a segment.
pub open spec fn segment_name(seg: Segment) -> Seq<char> {
    match seg {
        Segment::Pointer => "pointer"@,
        Segment::Constant => "constant"@,
        Segment::Local => "local"@,
        Segment::Argument => "argument"@,
        Segment::Static => "static"@,
        Segment::This => "this"@,
        Segment::That => "that"@,
        Segment::Temp => "temp"@,
    }
}

/// A word names a segment exactly when it is that segment's name.
pub proof fn lemma_segment_names(word: Seq<char>, seg: Segment)
    ensures
        segment_named(word) == Some(seg) <==> word == segment_name(seg),
{
    lemma_spellings();
    if word == segment_name(seg) {
        assert(segment_named(word) == Some(seg));
    }
}


/// A `label` line in a function whose own table lacks the label enters it
/// in that table, at its distance in lines from the function's declaration,
/// whatever labels other functions hold; nothing else changes, and the line
/// gives the `label` command.
pub proof fn lemma_label_line_adds(st: ParseState, label: Seq<char>, line: usize)
    requires
        st.current matches Some(i) && 0 <= i < st.functions.len(),
        st.functions[st.current->0].1.start_line <= line,
        forall|j: int|
            0 <= j < st.functions[st.current->0].1.label_table.len()
                ==> #[trigger] st.functions[st.current->0].1.label_table[j].0 != label,
    ensures
        ({
            let i = st.current->0;
            let f = st.functions[i].1;
            let r = line_command(st, seq!["label"@, label], line);
            &&& r is Ok
            &&& r->Ok_0.1 == CommandView::Label(label)
            &&& r->Ok_0.0.class == st.class
            &&& r->Ok_0.0.current == st.current
            &&& r->Ok_0.0.functions.len() == st.functions.len()
            &&& r->Ok_0.0.functions[i] == (
                st.functions[i].0,
                FunctionView {
                    label_table: f.label_table.push((label, (line - f.start_line) as usize)),
                    ..f
                },
            )
            &&& forall|k: int|
                0 <= k < st.functions.len() && k != i ==> #[trigger] r->Ok_0.0.functions[k]
                    == st.functions[k]
        }),
{
    lemma_spellings();
    let i = st.current->0;
    let f = st.functions[i].1;
    assert(!(exists|j: int| first_key_at(f.label_table, label, j)));
}

/// A `label` line whose label the current function's table already holds
/// (first at index `j`) is refused as a duplicate, with the label's location
/// now and the one it was entered with.
pub proof fn lemma_label_line_duplicate(st: ParseState, label: Seq<char>, line: usize, j: int)
    requires
        st.current matches Some(i) && 0 <= i < st.functions.len(),
        0 <= j < st.functions[st.current->0].1.label_table.len(),
        st.functions[st.current->0].1.label_table[j].0 == label,
        forall|m: int|
            0 <= m < j ==> #[trigger] st.functions[st.current->0].1.label_table[m].0 != label,
    ensures
        ({
            let f = st.functions[st.current->0].1;
            line_command(st, seq!["label"@, label], line) == Err::<
                (ParseState, CommandView),
                ParseErrorView,
            >(
                ParseErrorView::DuplicateLabel {
                    line,
                    label,
                    location: (line - f.start_line) as usize,
                    previous: f.label_table[j].1,
                },
            )
        }),
{
    lemma_spellings();
    let f = st.functions[st.current->0].1;
    assert(first_key_at(f.label_table, label, j));
    assert forall|k: int| first_key_at(f.label_table, label, k) implies k == j by {
        if k < j {
            assert(f.label_table[k].0 != label);
        } else if k > j {
            assert(f.label_table[j].0 == label);
        }
    }
}

/// A `label` line outside any function is refused.
pub proof fn lemma_label_line_outside(st: ParseState, label: Seq<char>, line: usize)
    requires
        st.current is None,
    ensures
        line_command(st, seq!["label"@, label], line) == Err::<(ParseState, CommandView), ParseErrorView>(
            ParseErrorView::LabelOutsideFunction { line },
        ),
{
    lemma_spellings();
}

/// A `function` line declares the function `Class.name` (the current class,
/// a dot, the name) at this line with the number of local variables given,
/// and makes it current: an earlier function of that name is replaced in
/// place, else the new one comes after the others; every other function is
/// kept, and the line gives the declaration command.
pub proof fn lemma_function_line(
    st: ParseState,
    name: Seq<char>,
    number: Seq<char>,
    v: WordSize,
    line: usize,
)
    requires
        parse_i16_spec(number) == Some(v),
    ensures
        ({
            let full = st.class + seq!['.'] + name;
            let r = line_command(st, seq!["function"@, name, number], line);
            let next = r->Ok_0.0;
            let i = next.current->0;
            let known = exists|j: int| 0 <= j < st.functions.len() && st.functions[j].0 == full;
            &&& r is Ok
            &&& r->Ok_0.1 == CommandView::Function(full, v)
            &&& next.class == st.class
            &&& next.current is Some
            &&& 0 <= i < next.functions.len()
            &&& next.functions[i] == (
                full,
                FunctionView {
                    start_line: line,
                    num_vars: v,
                    commands: Seq::empty(),
                    label_table: Seq::empty(),
                },
            )
            &&& known ==> next.functions.len() == st.functions.len() && st.functions[i].0 == full
            &&& !known ==> next.functions.len() == st.functions.len() + 1
            &&& forall|k: int|
                0 <= k < st.functions.len() && k != i ==> #[trigger] next.functions[k]
                    == st.functions[k]
        }),
{
    lemma_spellings();
    let full = st.class + seq!['.'] + name;
    assert(st.class.push('.') + name =~= full);
    match key_index(st.functions, full) {
        Some(i) => {
            assert(first_key_at(st.functions, full, i));
        },
        None => {
            assert forall|j: int| 0 <= j < st.functions.len() implies st.functions[j].0 != full by {
                if st.functions[j].0 == full {
                    lemma_first_key_exists(st.functions, full, j);
                }
            }
        },
    }
}

/// Where some entry has the name `key`, a first such entry exists.
proof fn lemma_first_key_exists<V>(table: Seq<(Seq<char>, V)>, key: Seq<char>, j: int)
    requires
        0 <= j < table.len(),
        table[j].0 == key,
    ensures
        exists|i: int| first_key_at(table, key, i),
    decreases j,
{
    if exists|m: int| 0 <= m < j && table[m].0 == key {
        let m = choose|m: int| 0 <= m < j && table[m].0 == key;
        lemma_first_key_exists(table, key, m);
    } else {
        assert(first_key_at(table, key, j));
    }
}

/// The other lines of two and three words: `class` makes its word the
/// current class; `goto`, `if-goto` and `call` give their command with the
/// word (and the number) unchanged; `push` and `pop` give their command
/// with the segment named and the number, or are refused for a word that
/// names no segment; none of these changes the functions.
pub proof fn lemma_other_lines(
    st: ParseState,
    word: Seq<char>,
    number: Seq<char>,
    v: WordSize,
    line: usize,
)
    requires
        parse_i16_spec(number) == Some(v),
    ensures
        line_command(st, seq!["class"@, word], line) == Ok::<
            (ParseState, CommandView),
            ParseErrorView,
        >((ParseState { class: word, ..st }, CommandView::Class(word))),
        line_command(st, seq!["goto"@, word], line) == Ok::<
            (ParseState, CommandView),
            ParseErrorView,
        >((st, CommandView::GoTo(word))),
        line_command(st, seq!["if-goto"@, word], line) == Ok::<
            (ParseState, CommandView),
            ParseErrorView,
        >((st, CommandView::IfGoTo(word))),
        line_command(st, seq!["call"@, word, number], line) == Ok::<
            (ParseState, CommandView),
            ParseErrorView,
        >((st, CommandView::Call(word, v))),
        forall|seg: Segment|
            word == segment_name(seg) ==> {
                &&& line_command(st, seq!["push"@, word, number], line) == Ok::<
                    (ParseState, CommandView),
                    ParseErrorView,
                >((st, CommandView::Push(seg, v)))
                &&& line_command(st, seq!["pop"@, word, number], line) == Ok::<
                    (ParseState, CommandView),
                    ParseErrorView,
                >((st, CommandView::Pop(seg, v)))
            },
        (forall|seg: Segment| word != segment_name(seg)) ==> {
            &&& line_command(st, seq!["push"@, word, number], line) == Err::<
                (ParseState, CommandView),
                ParseErrorView,
            >(ParseErrorView::InvalidSegment { line, name: word })
            &&& line_command(st, seq!["pop"@, word, number], line) == Err::<
                (ParseState, CommandView),
                ParseErrorView,
            >(ParseErrorView::InvalidSegment { line, name: word })
        },
{
    lemma_spellings();
    assert forall|seg: Segment| word == segment_name(seg) implies segment_named(word) == Some(seg) by {
        lemma_segment_names(word, seg);
    }
    if forall|seg: Segment| word != segment_name(seg) {
        if segment_named(word) is Some {
            lemma_segment_names(word, segment_named(word)->0);
        }
    }
}

/// Lines that name no command are refused, with the word at fault: a
/// single word that is no command's name, a first word of two that is none
/// of `class`, `goto`, `if-goto` and `label`, and a first word of three
/// (with a number last) that is none of `pop`, `push`, `function` and
/// `call`.  A line of three words whose last is no number is refused for
/// it, and a line of more than three words for its length.
pub proof fn lemma_malformed_lines(st: ParseState, words: Seq<Seq<char>>, line: usize)
    ensures
        words.len() == 1 && (forall|c: CommandView| is_zero_arg(c) ==> words[0] != zero_arg_name(c))
            ==> line_command(st, words, line) == Err::<(ParseState, CommandView), ParseErrorView>(
            ParseErrorView::InvalidZeroArgumentCommand { line, word: words[0] },
        ),
        words.len() == 2 && words[0] != "class"@ && words[0] != "goto"@ && words[0] != "if-goto"@
            && words[0] != "label"@ ==> line_command(st, words, line) == Err::<
            (ParseState, CommandView),
            ParseErrorView,
        >(ParseErrorView::InvalidOneArgumentCommand { line, word: words[0] }),
        words.len() == 3 && parse_i16_spec(words[2]) is Some && words[0] != "pop"@ && words[0]
            != "push"@ && words[0] != "function"@ && words[0] != "call"@ ==> line_command(
            st,
            words,
            line,
        ) == Err::<(ParseState, CommandView), ParseErrorView>(
            ParseErrorView::InvalidTwoArgumentCommand { line, word: words[0] },
        ),
        words.len() == 3 && parse_i16_spec(words[2]) is None ==> line_command(st, words, line)
            == Err::<(ParseState, CommandView), ParseErrorView>(
            ParseErrorView::InvalidNumber { line },
        ),
        words.len() > 3 ==> line_command(st, words, line) == Err::<
            (ParseState, CommandView),
            ParseErrorView,
        >(ParseErrorView::InvalidSyntax { line, words: words.len() as usize }),
{
    if words.len() == 1 && (forall|c: CommandView| is_zero_arg(c) ==> words[0] != zero_arg_name(c)) {
        if zero_arg_command(words[0]) is Some {
            let d = zero_arg_command(words[0])->0;
            lemma_zero_arg_names(words[0], d);
        }
    }
}

/// A line's command goes to the end of the current function's commands,
/// with the line's number; with no current function it is dropped.  A line
/// that is blank once its comment is cut changes nothing.
pub proof fn lemma_step_adds_to_current(st: ParseState, raw: Seq<char>, line: usize)
    requires
        st.current matches Some(i) ==> 0 <= i < st.functions.len(),
    ensures
        trim(strip_comment(raw)).len() == 0 ==> parse_step(st, raw, line) == Ok::<
            ParseState,
            ParseErrorView,
        >(st),
        trim(strip_comment(raw)).len() > 0 ==> ({
            let r = line_command(st, split_on(trim(strip_comment(raw)), ' '), line);
            match r {
                Err(e) => parse_step(st, raw, line) == Err::<ParseState, ParseErrorView>(e),
                Ok((next, c)) => {
                    let after = parse_step(st, raw, line)->Ok_0;
                    &&& parse_step(st, raw, line) is Ok
                    &&& after.class == next.class
                    &&& after.current == next.current
                    &&& after.functions.len() == next.functions.len()
                    &&& forall|k: int|
                        0 <= k < next.functions.len() && next.current != Some(k) ==> #[trigger] after.functions[k]
                            == next.functions[k]
                    &&& next.current matches Some(i) ==> (0 <= i < next.functions.len() ==> {
                        &&& after.functions[i].0 == next.functions[i].0
                        &&& after.functions[i].1.start_line == next.functions[i].1.start_line
                        &&& after.functions[i].1.num_vars == next.functions[i].1.num_vars
                        &&& after.functions[i].1.label_table == next.functions[i].1.label_table
                        &&& after.functions[i].1.commands == next.functions[i].1.commands.push(
                            VMCommandView { command: c, line },
                        )
                    })
                },
            }
        }),
{
}

/// `key_index` finds the first entry with the name, if there is one.
pub proof fn lemma_key_index<V>(table: Seq<(Seq<char>, V)>, key: Seq<char>)
    ensures
        key_index(table, key) matches Some(i) ==> {
            &&& 0 <= i < table.len()
            &&& table[i].0 == key
            &&& forall|j: int| 0 <= j < i ==> table[j].0 != key
        },
        key_index(table, key) is None ==> forall|j: int| 0 <= j < table.len() ==> table[j].0 != key,
{
    if key_index(table, key) is None {
        assert forall|j: int| 0 <= j < table.len() implies table[j].0 != key by {
            if table[j].0 == key {
                lemma_first_key_exists(table, key, j);
            }
        }
    }
}

proof fn lemma_parse_lines_prefix(ls: Seq<Seq<char>>, l: Seq<char>, n: nat)
    requires
        n <= ls.len(),
    ensures
        parse_lines(ls.push(l), n) == parse_lines(ls, n),
    decreases n,
{
    if n > 0 {
        lemma_parse_lines_prefix(ls, l, (n - 1) as nat);
        assert(ls.push(l)[n - 1] == ls[n - 1]);
    }
}

/// Lines are read in order and numbered by their place: parsing the lines
/// `ls` followed by one more line `l` is parsing `ls`, then reading `l` as
/// line number `ls.len()`; an error in `ls` stays the error.
pub proof fn lemma_parse_lines_append(ls: Seq<Seq<char>>, l: Seq<char>)
    requires
        ls.len() < usize::MAX,
    ensures
        parse_lines(ls.push(l), ls.len() + 1) == match parse_lines(ls, ls.len()) {
            Ok(st) => parse_step(st, l, ls.len() as usize),
            Err(e) => Err(e),
        },
{
    lemma_parse_lines_prefix(ls, l, ls.len());
    assert(ls.push(l)[ls.len() as int] == l);
}

} // verus!
