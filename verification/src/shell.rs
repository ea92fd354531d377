use vstd::prelude::*;
use vstd::string::{StrSliceExecFns, StringExecFns};

verus! {

/// A command line, parsed.
#[derive(Debug, PartialEq, Eq)]
pub enum Command {
    /// A program and its arguments.
    Execute { argv: Vec<String> },
    /// Two commands, the output of the left one being the input of the right one.
    Pipe { left: Box<Command>, right: Box<Command> },
    /// A command whose input (`op` is `<`) or output (`op` is `>`) is a file.
    Redirect { command: Box<Command>, op: char, file: String },
}

/// The mathematical value of a [`Command`].
pub enum Shape {
    Execute { argv: Seq<Seq<char>> },
    Pipe { left: Box<Shape>, right: Box<Shape> },
    Redirect { command: Box<Shape>, op: char, file: Seq<char> },
}

/// The texts of a sequence of strings.
pub open spec fn texts(words: Seq<String>) -> Seq<Seq<char>> {
    Seq::new(words.len(), |i: int| words[i]@)
}

/// The shape that `c` stands for.
pub open spec fn shape_of(c: Command) -> Shape
    decreases c,
{
    match c {
        Command::Execute { argv } => Shape::Execute { argv: texts(argv@) },
        Command::Pipe { left, right } => Shape::Pipe {
            left: Box::new(shape_of(*left)),
            right: Box::new(shape_of(*right)),
        },
        Command::Redirect { command, op, file } => Shape::Redirect {
            command: Box::new(shape_of(*command)),
            op,
            file: file@,
        },
    }
}

impl View for Command {
    type V = Shape;

    open spec fn view(&self) -> Shape {
        shape_of(*self)
    }
}

/// Why a line is no command.
#[derive(Debug, Clone, Copy, PartialEq, Eq, Structural)]
pub enum ShellError {
    /// The line is not of the form that the grammar describes.
    Syntax,
    /// A `<` or `>` is the last word of a command: the file is missing.
    MissingFile,
}

/// The characters that separate words.
pub open spec fn is_separator(c: char) -> bool {
    c == ' ' || c == '\t' || c == '\n'
}

/// The characters that a word can hold outside quotes.
pub open spec fn is_bare(c: char) -> bool {
    !(c == '<' || c == '>' || c == '|' || c == ' ' || c == '"' || c == '\'')
}

/// The first position from `pos` on that holds no separator.
pub open spec fn after_separators(s: Seq<char>, pos: int) -> int
    decreases s.len() - pos,
{
    if 0 <= pos < s.len() && is_separator(s[pos]) {
        after_separators(s, pos + 1)
    } else {
        pos
    }
}

/// The first position from `pos` on that holds no bare character.
pub open spec fn after_bare(s: Seq<char>, pos: int) -> int
    decreases s.len() - pos,
{
    if 0 <= pos < s.len() && is_bare(s[pos]) {
        after_bare(s, pos + 1)
    } else {
        pos
    }
}

/// The first position from `pos` on that holds `quote`, or the length of `s`.
pub open spec fn closing_quote(s: Seq<char>, pos: int, quote: char) -> int
    decreases s.len() - pos,
{
    if 0 <= pos < s.len() && s[pos] != quote {
        closing_quote(s, pos + 1, quote)
    } else {
        pos
    }
}

/// One piece of a word at `pos`, and where it ends: a run of bare characters,
/// or what stands between two quotes of one kind, which is not empty.
pub open spec fn piece(s: Seq<char>, pos: int) -> Option<(Seq<char>, int)> {
    if !(0 <= pos < s.len()) {
        None
    } else if is_bare(s[pos]) {
        Some((s.subrange(pos, after_bare(s, pos)), after_bare(s, pos)))
    } else if s[pos] == '"' || s[pos] == '\'' {
        let end = closing_quote(s, pos + 1, s[pos]);
        if pos + 1 < end < s.len() {
            Some((s.subrange(pos + 1, end), end + 1))
        } else {
            None
        }
    } else {
        None
    }
}

/// All pieces that follow each other from `pos` on, joined, and where they end.
pub open spec fn pieces(s: Seq<char>, pos: int) -> (Seq<char>, int)
    decreases s.len() - pos,
{
    match piece(s, pos) {
        Some((text, end)) => if pos < end <= s.len() {
            let (more, last) = pieces(s, end);
            (text + more, last)
        } else {
            (text, end)
        },
        None => (Seq::empty(), pos),
    }
}

/// The word at `pos`, and where it ends: a `<` or a `>` by itself, or one or
/// more pieces, joined.
pub open spec fn word(s: Seq<char>, pos: int) -> Option<(Seq<char>, int)> {
    if 0 <= pos < s.len() && (s[pos] == '<' || s[pos] == '>') {
        Some((seq![s[pos]], pos + 1))
    } else if piece(s, pos) is Some {
        Some(pieces(s, pos))
    } else {
        None
    }
}

/// All words from `pos` on, each after any separators, and where the last ends.
pub open spec fn words(s: Seq<char>, pos: int) -> (Seq<Seq<char>>, int)
    decreases s.len() - pos,
{
    match word(s, after_separators(s, pos)) {
        Some((text, end)) => if pos < end <= s.len() {
            let (more, last) = words(s, end);
            (seq![text] + more, last)
        } else {
            (seq![text], end)
        },
        None => (Seq::empty(), pos),
    }
}

/// Whether a word is one of the two redirection operators.
pub open spec fn is_operator(text: Seq<char>) -> bool {
    text == seq!['<'] || text == seq!['>']
}

/// The index of the first operator among the words from `from` on, or their number.
pub open spec fn first_operator(argv: Seq<Seq<char>>, from: int) -> int
    decreases argv.len() - from,
{
    if 0 <= from < argv.len() && !is_operator(argv[from]) {
        first_operator(argv, from + 1)
    } else {
        from
    }
}

/// The command that a list of words stands for: the first operator and the
/// word behind it are taken out and redirect what the other words stand for.
/// `None` where an operator is the last word.
pub open spec fn redirected(argv: Seq<Seq<char>>) -> Option<Shape>
    decreases argv.len(),
{
    let pos = first_operator(argv, 0);
    if !(0 <= pos < argv.len()) {
        Some(Shape::Execute { argv })
    } else if pos + 1 >= argv.len() {
        None
    } else {
        match redirected(argv.remove(pos).remove(pos)) {
            Some(inner) => Some(
                Shape::Redirect { command: Box::new(inner), op: argv[pos][0], file: argv[pos + 1] },
            ),
            None => None,
        }
    }
}

/// What reading a command at some position comes to.
pub enum Reading {
    /// A command, and the position behind it.
    Found(Shape, int),
    /// No word stands there.
    Nothing,
    /// An operator is the last word of a command.
    MissingFile,
}

/// The command at `pos`: words up to a `|`, and behind the `|` a command
/// again. Where nothing that can be read follows a `|`, the command ends before it.
pub open spec fn command_at(s: Seq<char>, pos: int) -> Reading
    decreases s.len() - pos,
{
    let (argv, end) = words(s, pos);
    if argv.len() == 0 {
        Reading::Nothing
    } else {
        match redirected(argv) {
            None => Reading::MissingFile,
            Some(left) => {
                let bar = after_separators(s, end);
                if pos <= bar < s.len() && s[bar] == '|' {
                    match command_at(s, bar + 1) {
                        Reading::Found(right, last) => Reading::Found(
                            Shape::Pipe { left: Box::new(left), right: Box::new(right) },
                            last,
                        ),
                        Reading::Nothing => Reading::Found(left, end),
                        Reading::MissingFile => Reading::MissingFile,
                    }
                } else {
                    Reading::Found(left, end)
                }
            },
        }
    }
}

/// What a whole line comes to: the command at its start, if that takes all of it.
pub open spec fn parsed(s: Seq<char>) -> Result<Shape, ShellError> {
    match command_at(s, 0) {
        Reading::Found(shape, end) => if end == s.len() {
            Ok(shape)
        } else {
            Err(ShellError::Syntax)
        },
        Reading::Nothing => Err(ShellError::Syntax),
        Reading::MissingFile => Err(ShellError::MissingFile),
    }
}

/// Where the separators from `pos` on end.
fn skip_separators(line: &str, len: usize, pos: usize) -> (end: usize)
    requires
        len == line@.len(),
        pos <= len,
    ensures
        end == after_separators(line@, pos as int),
        pos <= end <= len,
{
    let mut i = pos;
    while i < len && (line.get_char(i) == ' ' || line.get_char(i) == '\t' || line.get_char(i)
        == '\n')
        invariant
            len == line@.len(),
            pos <= i <= len,
            after_separators(line@, pos as int) == after_separators(line@, i as int),
        decreases len - i,
    {
        i += 1;
    }
    i
}

/// Where the bare characters from `pos` on end.
fn skip_bare(line: &str, len: usize, pos: usize) -> (end: usize)
    requires
        len == line@.len(),
        pos <= len,
    ensures
        end == after_bare(line@, pos as int),
        pos <= end <= len,
        pos < len && is_bare(line@[pos as int]) ==> pos < end,
{
    let mut i = pos;
    while i < len && is_bare_char(line.get_char(i))
        invariant
            len == line@.len(),
            pos <= i <= len,
            after_bare(line@, pos as int) == after_bare(line@, i as int),
        decreases len - i,
    {
        i += 1;
    }
    i
}

fn is_bare_char(c: char) -> (bare: bool)
    ensures
        bare == is_bare(c),
{
    !(c == '<' || c == '>' || c == '|' || c == ' ' || c == '"' || c == '\'')
}

/// Where the next `quote` from `pos` on stands, or the length of the line.
fn find_quote(line: &str, len: usize, pos: usize, quote: char) -> (end: usize)
    requires
        len == line@.len(),
        pos <= len,
    ensures
        end == closing_quote(line@, pos as int, quote),
        pos <= end <= len,
{
    let mut i = pos;
    while i < len && line.get_char(i) != quote
        invariant
            len == line@.len(),
            pos <= i <= len,
            closing_quote(line@, pos as int, quote) == closing_quote(line@, i as int, quote),
        decreases len - i,
    {
        i += 1;
    }
    i
}

/// The piece at `pos`: where its text starts and ends, and where the piece ends.
fn read_piece(line: &str, len: usize, pos: usize) -> (found: Option<(usize, usize, usize)>)
    requires
        len == line@.len(),
        pos <= len,
    ensures
        match found {
            Some((from, to, end)) => {
                &&& piece(line@, pos as int) == Some(
                    (line@.subrange(from as int, to as int), end as int),
                )
                &&& from <= to <= len
                &&& pos < end <= len
            },
            None => piece(line@, pos as int) is None,
        },
{
    if pos >= len {
        return None;
    }
    let c = line.get_char(pos);
    if is_bare_char(c) {
        let end = skip_bare(line, len, pos);
        Some((pos, end, end))
    } else if c == '"' || c == '\'' {
        let end = find_quote(line, len, pos + 1, c);
        if pos + 1 < end && end < len {
            Some((pos + 1, end, end + 1))
        } else {
            None
        }
    } else {
        None
    }
}

/// The word at `pos`, and where it ends.
fn read_word(line: &str, len: usize, pos: usize) -> (found: Option<(String, usize)>)
    requires
        len == line@.len(),
        pos <= len,
    ensures
        match found {
            Some((text, end)) => word(line@, pos as int) == Some((text@, end as int)) && pos < end
                <= len,
            None => word(line@, pos as int) is None,
        },
{
    if pos < len && (line.get_char(pos) == '<' || line.get_char(pos) == '>') {
        let text = String::from_str(line.substring_char(pos, pos + 1));
        proof {
            assert(text@ =~= seq![line@[pos as int]]);
        }
        return Some((text, pos + 1));
    }
    let mut text = String::new();
    let mut i = pos;
    match read_piece(line, len, pos) {
        None => {
            return None;
        },
        Some((from, to, end)) => {
            text.append(line.substring_char(from, to));
            i = end;
            proof {
                assert(text@ =~= line@.subrange(from as int, to as int));
            }
        },
    }
    loop
        invariant_except_break
            len == line@.len(),
            pos < i <= len,
            pieces(line@, pos as int) == (
                text@ + pieces(line@, i as int).0,
                pieces(line@, i as int).1,
            ),
        ensures
            pos < i <= len,
            pieces(line@, pos as int) == (text@, i as int),
        decreases len - i,
    {
        match read_piece(line, len, i) {
            None => {
                proof {
                    assert(text@ + Seq::<char>::empty() =~= text@);
                }
                break ;
            },
            Some((from, to, end)) => {
                let ghost before = text@;
                text.append(line.substring_char(from, to));
                proof {
                    let part = line@.subrange(from as int, to as int);
                    let rest = pieces(line@, end as int);
                    assert(before + (part + rest.0) =~= (before + part) + rest.0);
                }
                i = end;
            },
        }
    }
    Some((text, i))
}

/// All words from `pos` on, and where the last ends.
fn read_words(line: &str, len: usize, pos: usize) -> (found: (Vec<String>, usize))
    requires
        len == line@.len(),
        pos <= len,
    ensures
        words(line@, pos as int) == (texts(found.0@), found.1 as int),
        pos <= found.1 <= len,
{
    let mut argv: Vec<String> = Vec::new();
    let mut i = pos;
    proof {
        assert(texts(argv@) =~= Seq::<Seq<char>>::empty());
        assert(Seq::<Seq<char>>::empty() + words(line@, pos as int).0 =~= words(
            line@,
            pos as int,
        ).0);
    }
    loop
        invariant_except_break
            len == line@.len(),
            pos <= i <= len,
            words(line@, pos as int) == (
                texts(argv@) + words(line@, i as int).0,
                words(line@, i as int).1,
            ),
        ensures
            pos <= i <= len,
            words(line@, pos as int) == (texts(argv@), i as int),
        decreases len - i,
    {
        let start = skip_separators(line, len, i);
        match read_word(line, len, start) {
            None => {
                proof {
                    assert(texts(argv@) + Seq::<Seq<char>>::empty() =~= texts(argv@));
                }
                break ;
            },
            Some((text, end)) => {
                let ghost before = texts(argv@);
                proof {
                    let rest = words(line@, end as int);
                    assert(before + (seq![text@] + rest.0) =~= before.push(text@) + rest.0);
                    assert(texts(argv@.push(text)) =~= before.push(text@));
                }
                argv.push(text);
                i = end;
            },
        }
    }
    (argv, i)
}

/// Whether `text` is `<` or `>`.
fn is_operator_word(text: &String) -> (yes: bool)
    ensures
        yes == is_operator(text@),
{
    let s = text.as_str();
    if s.unicode_len() == 1 {
        let c = s.get_char(0);
        proof {
            assert(c == '<' ==> text@ =~= seq!['<']);
            assert(c == '>' ==> text@ =~= seq!['>']);
            assert(seq!['<'][0] == '<' && seq!['>'][0] == '>');
        }
        c == '<' || c == '>'
    } else {
        proof {
            assert(seq!['<'].len() == 1 && seq!['>'].len() == 1);
        }
        false
    }
}

/// The index of the first operator among the words, or their number.
fn find_operator(tokens: &[String]) -> (pos: usize)
    ensures
        pos == first_operator(texts(tokens@), 0),
        pos <= tokens@.len(),
        pos < tokens@.len() ==> is_operator(tokens@[pos as int]@),
{
    let n = tokens.len();
    let mut i: usize = 0;
    while i < n && !is_operator_word(&tokens[i])
        invariant
            n == tokens@.len(),
            i <= n,
            first_operator(texts(tokens@), 0) == first_operator(texts(tokens@), i as int),
        decreases n - i,
    {
        i += 1;
    }
    i
}

/// Copies of the words before `from` and of those from `to` on.
fn copy_without(tokens: &[String], from: usize, to: usize) -> (copy: Vec<String>)
    requires
        from <= to <= tokens@.len(),
    ensures
        texts(copy@) == texts(tokens@).subrange(0, from as int) + texts(tokens@).subrange(
            to as int,
            tokens@.len() as int,
        ),
{
    let n = tokens.len();
    let ghost all = texts(tokens@);
    let mut copy: Vec<String> = Vec::new();
    let mut i: usize = 0;
    while i < from
        invariant
            i <= from <= to <= n,
            n == tokens@.len(),
            all == texts(tokens@),
            texts(copy@) == all.subrange(0, i as int),
        decreases from - i,
    {
        let word = tokens[i].clone();
        proof {
            let had = all.subrange(0, i as int);
            assert(word@ == tokens@[i as int]@);
            assert(all[i as int] == word@);
            assert forall|k: int| 0 <= k < copy@.len() implies texts(copy@.push(word))[k]
                == had[k] by {
                assert(texts(copy@)[k] == had[k]);
            }
            assert(texts(copy@.push(word)) =~= had.push(word@));
            assert(had.push(word@) =~= all.subrange(0, i + 1));
        }
        copy.push(word);
        i += 1;
    }
    let mut j: usize = to;
    proof {
        assert(texts(copy@) =~= all.subrange(0, from as int) + all.subrange(to as int, j as int));
    }
    while j < n
        invariant
            from <= to <= j <= n,
            n == tokens@.len(),
            all == texts(tokens@),
            texts(copy@) == all.subrange(0, from as int) + all.subrange(to as int, j as int),
        decreases n - j,
    {
        let word = tokens[j].clone();
        proof {
            let had = all.subrange(0, from as int) + all.subrange(to as int, j as int);
            assert(word@ == tokens@[j as int]@);
            assert(all[j as int] == word@);
            assert forall|k: int| 0 <= k < copy@.len() implies texts(copy@.push(word))[k]
                == had[k] by {
                assert(texts(copy@)[k] == had[k]);
            }
            assert(texts(copy@.push(word)) =~= had.push(word@));
            assert(had.push(word@) =~= all.subrange(0, from as int) + all.subrange(
                to as int,
                j + 1,
            ));
        }
        copy.push(word);
        j += 1;
    }
    copy
}

/// The command that the words stand for, or `None` where an operator is the
/// last word.
pub fn try_redirect(tokens: &[String]) -> (found: Option<Command>)
    ensures
        match redirected(texts(tokens@)) {
            Some(shape) => found matches Some(c) && shape_of(c) == shape,
            None => found is None,
        },
    decreases tokens@.len(),
{
    let n = tokens.len();
    let ghost all = texts(tokens@);
    let pos = find_operator(tokens);
    if pos >= n {
        let argv = copy_without(tokens, n, n);
        proof {
            assert(texts(argv@) =~= all);
        }
        Some(Command::Execute { argv })
    } else if pos + 1 >= n {
        None
    } else {
        proof {
            assert(seq!['<'].len() == 1 && seq!['>'].len() == 1);
        }
        let op = tokens[pos].as_str().get_char(0);
        let file = tokens[pos + 1].clone();
        let rest = copy_without(tokens, pos, pos + 2);
        proof {
            assert(all.remove(pos as int).remove(pos as int) =~= texts(rest@));
        }
        match try_redirect(rest.as_slice()) {
            Some(inner) => Some(Command::Redirect { command: Box::new(inner), op, file }),
            None => None,
        }
    }
}

/// The command that the words stand for: the first `<` or `>` and the word
/// behind it are taken out and redirect what the other words stand for.
pub fn parse_redirect(tokens: &[String]) -> (command: Command)
    requires
        redirected(texts(tokens@)) is Some,
    ensures
        Some(shape_of(command)) == redirected(texts(tokens@)),
{
    match try_redirect(tokens) {
        Some(command) => command,
        None => vstd::pervasive::unreached(),
    }
}

/// What reading a command came to.
enum Read {
    Found(Command, usize),
    Nothing,
    MissingFile,
}

/// The command at `pos`.
fn read_command(line: &str, len: usize, pos: usize) -> (read: Read)
    requires
        len == line@.len(),
        pos <= len,
    ensures
        match command_at(line@, pos as int) {
            Reading::Found(shape, end) => read matches Read::Found(c, e) && shape_of(c) == shape
                && e == end && pos <= e <= len,
            Reading::Nothing => read is Nothing,
            Reading::MissingFile => read is MissingFile,
        },
    decreases len - pos,
{
    let (argv, end) = read_words(line, len, pos);
    proof {
        assert(texts(argv@).len() == argv@.len());
    }
    if argv.len() == 0 {
        return Read::Nothing;
    }
    match try_redirect(argv.as_slice()) {
        None => Read::MissingFile,
        Some(left) => {
            let bar = skip_separators(line, len, end);
            if bar < len && line.get_char(bar) == '|' {
                match read_command(line, len, bar + 1) {
                    Read::Found(right, last) => Read::Found(
                        Command::Pipe { left: Box::new(left), right: Box::new(right) },
                        last,
                    ),
                    Read::Nothing => Read::Found(left, end),
                    Read::MissingFile => Read::MissingFile,
                }
            } else {
                Read::Found(left, end)
            }
        },
    }
}

/// Parses a command line. Words are separated by blanks, tabs and newlines; a
/// word is `<`, `>`, or one or more pieces, each a run of characters other than
/// `<`, `>`, `|`, blank and the quotes, or a text between two quotes of one
/// kind, which is not empty. The words up to a `|` make a command, with its
/// redirections taken out of them; behind the `|` stands a command again.
pub fn command(line: &str) -> (result: Result<Command, ShellError>)
    ensures
        match parsed(line@) {
            Ok(shape) => result matches Ok(c) && shape_of(c) == shape,
            Err(e) => result matches Err(f) && e == f,
        },
{
    let len = line.unicode_len();
    match read_command(line, len, 0) {
        Read::Found(c, end) => if end == len {
            Ok(c)
        } else {
            Err(ShellError::Syntax)
        },
        Read::Nothing => Err(ShellError::Syntax),
        Read::MissingFile => Err(ShellError::MissingFile),
    }
}

/// What the shell does with a command before any program is started.
#[derive(Debug, PartialEq, Eq)]
pub enum Builtin {
    /// `exit`: the shell ends.
    Exit,
    /// `cd` alone: the shell goes to the home directory.
    Home,
    /// `cd` with one argument: the shell goes to that directory.
    Directory(String),
    /// Anything else: the command is run in a process of its own.
    Spawn,
}

/// What the shell does with a command of this shape before any program is started.
pub open spec fn builtin_of(shape: Shape) -> Option<Seq<Seq<char>>> {
    match shape {
        Shape::Execute { argv } => if argv.len() > 0 && (argv[0] == "exit"@ || (argv[0] == "cd"@
            && argv.len() <= 2)) {
            Some(argv)
        } else {
            None
        },
        _ => None,
    }
}

/// Tells what the shell does with `command` itself: `exit` ends it, whatever
/// follows the word; `cd` with at most one argument changes its directory;
/// everything else is run in a process of its own.
pub fn builtin(command: &Command) -> (what: Builtin)
    ensures
        match builtin_of(shape_of(*command)) {
            Some(argv) => if argv[0] == "exit"@ {
                what == Builtin::Exit
            } else if argv.len() == 1 {
                what == Builtin::Home
            } else {
                what matches Builtin::Directory(path) && path@ == argv[1]
            },
            None => what == Builtin::Spawn,
        },
{
    if let Command::Execute { argv } = command {
        proof {
            assert(texts(argv@).len() == argv@.len());
        }
        if argv.len() > 0 {
            let exit = String::from_str("exit");
            let cd = String::from_str("cd");
            assert(texts(argv@)[0] == argv@[0]@);
            if argv[0] == exit {
                return Builtin::Exit;
            }
            if argv[0] == cd && argv.len() == 1 {
                return Builtin::Home;
            }
            if argv[0] == cd && argv.len() == 2 {
                assert(texts(argv@)[1] == argv@[1]@);
                return Builtin::Directory(argv[1].clone());
            }
        }
    }
    Builtin::Spawn
}

} // verus!
