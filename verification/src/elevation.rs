//! Running as administrator: command lines for a new process, and what the system answers.

use vstd::prelude::*;

use crate::numbers::{decimal, decimal_int, push_decimal, push_decimal_int};
use crate::text::{chars_of, is_white_space, is_white_space_spec, push_repeated, push_text, strings_view};

verus! {

/// Why a process could not be run as administrator.
#[derive(Debug, Clone, Copy, PartialEq, Eq, Structural)]
pub enum ElevationError {
    /// There are no administrators on this platform.
    UnsupportedPlatform,
    /// The shell did not start the process.
    ShellExecuteFailed(i64),
    /// Waiting for the process failed.
    WaitFailed(u32),
}

impl ElevationError {
    /// What the error is called.
    pub open spec fn text(self) -> Seq<char> {
        match self {
            ElevationError::UnsupportedPlatform =>
                "administrator elevation is only supported on Windows"@,
            ElevationError::ShellExecuteFailed(code) => "ShellExecuteW runas failed with code "@
                + decimal_int(code as int),
            ElevationError::WaitFailed(code) => "waiting for elevated process failed with code "@
                + decimal(code as nat),
        }
    }

    /// What went wrong.
    #[must_use]
    pub fn describe(self) -> (r: String)
        ensures
            r@ == self.text(),
    {
        match self {
            ElevationError::UnsupportedPlatform =>
                "administrator elevation is only supported on Windows".to_owned(),
            ElevationError::ShellExecuteFailed(code) => {
                let mut r = "ShellExecuteW runas failed with code ".to_owned();
                push_decimal_int(&mut r, code);
                r
            },
            ElevationError::WaitFailed(code) => {
                let mut r = "waiting for elevated process failed with code ".to_owned();
                push_decimal(&mut r, code as u128);
                r
            },
        }
    }
}

/// Whether the process runs as administrator, from what the system says of its token; nothing is
/// said where there are no administrators.
pub fn is_process_elevated(token_is_elevated: Option<u32>) -> (r: Result<bool, ElevationError>)
    ensures
        r == match token_is_elevated {
            Some(flag) => Ok::<bool, ElevationError>(flag != 0),
            None => Err(ElevationError::UnsupportedPlatform),
        },
{
    match token_is_elevated {
        Some(flag) => Ok(flag != 0),
        None => Err(ElevationError::UnsupportedPlatform),
    }
}

/// Whether the shell started the process: it answers with a code above 32 where it did.
pub fn shell_execute_outcome(code: i64) -> (r: Result<(), ElevationError>)
    ensures
        r == if code <= 32 {
            Err::<(), ElevationError>(ElevationError::ShellExecuteFailed(code))
        } else {
            Ok(())
        },
{
    if code <= 32 {
        Err(ElevationError::ShellExecuteFailed(code))
    } else {
        Ok(())
    }
}

/// Whether the process was waited for: the answer is zero where it was.
pub fn wait_outcome(code: u32) -> (r: Result<(), ElevationError>)
    ensures
        r == if code != 0 {
            Err::<(), ElevationError>(ElevationError::WaitFailed(code))
        } else {
            Ok(())
        },
{
    if code != 0 {
        Err(ElevationError::WaitFailed(code))
    } else {
        Ok(())
    }
}

// ---------------------------------------------------------------------------------------------
// Command lines
// ---------------------------------------------------------------------------------------------

/// So many backslashes.
pub open spec fn backslashes(count: nat) -> Seq<char> {
    Seq::new(count, |i: int| '\\')
}

/// The inside of a quoted argument, behind `pending` backslashes: backslashes before a quote or at
/// the end are doubled, quotes get a backslash.
pub open spec fn escaped(rest: Seq<char>, pending: nat) -> Seq<char>
    decreases rest.len(),
{
    if rest.len() == 0 {
        backslashes(2 * pending)
    } else if rest[0] == '\\' {
        escaped(rest.drop_first(), pending + 1)
    } else if rest[0] == '"' {
        backslashes(2 * pending + 1) + seq!['"'] + escaped(rest.drop_first(), 0)
    } else {
        backslashes(pending) + seq![rest[0]] + escaped(rest.drop_first(), 0)
    }
}

/// Whether an argument is quoted: it is empty, or holds white space or a quote.
pub open spec fn is_quoted(arg: Seq<char>) -> bool {
    arg.len() == 0 || exists|i: int|
        0 <= i < arg.len() && (is_white_space_spec(#[trigger] arg[i]) || arg[i] == '"')
}

/// An argument as it stands in a command line.
pub open spec fn argument_text(arg: Seq<char>) -> Seq<char> {
    if is_quoted(arg) {
        seq!['"'] + escaped(arg, 0) + seq!['"']
    } else {
        arg
    }
}

fn has_space_or_quote(v: &Vec<char>) -> (r: bool)
    ensures
        r == exists|i: int|
            0 <= i < v@.len() && (is_white_space_spec(#[trigger] v@[i]) || v@[i] == '"'),
{
    let mut i: usize = 0;
    while i < v.len()
        invariant
            i <= v@.len(),
            forall|k: int|
                0 <= k < i ==> !is_white_space_spec(#[trigger] v@[k]) && v@[k] != '"',
        decreases v@.len() - i,
    {
        if is_white_space(v[i]) || v[i] == '"' {
            return true;
        }
        i += 1;
    }
    false
}

/// An argument as it stands in a command line.
#[must_use]
pub fn quote_windows_arg(arg: &str) -> (r: String)
    ensures
        r@ == argument_text(arg@),
{
    let v = chars_of(arg);
    if v.len() > 0 && !has_space_or_quote(&v) {
        return arg.to_owned();
    }
    let mut quoted = String::new();
    quoted.push('"');
    let mut pending: usize = 0;
    let mut i: usize = 0;
    assert(v@.skip(0) =~= arg@);
    assert(quoted@ + escaped(arg@, 0) =~= seq!['"'] + escaped(arg@, 0));
    while i < v.len()
        invariant
            v@ == arg@,
            i <= v@.len(),
            pending <= i,
            quoted@ + escaped(v@.skip(i as int), pending as nat) == seq!['"'] + escaped(arg@, 0),
        decreases v@.len() - i,
    {
        let ghost rest = v@.skip(i as int);
        let ghost shown = quoted@;
        let ghost behind = pending;
        assert(rest[0] == v@[i as int]);
        assert(rest.drop_first() =~= v@.skip(i + 1));
        let c = v[i];
        if c == '\\' {
            pending += 1;
        } else {
            if c == '"' {
                push_repeated(&mut quoted, '\\', pending);
                push_repeated(&mut quoted, '\\', pending);
                quoted.push('\\');
                assert(quoted@ =~= shown + backslashes((2 * behind + 1) as nat));
            } else {
                push_repeated(&mut quoted, '\\', pending);
                assert(quoted@ =~= shown + backslashes(behind as nat));
            }
            quoted.push(c);
            pending = 0;
            assert(quoted@ + escaped(v@.skip(i + 1), 0) =~= shown + escaped(rest, behind as nat));
        }
        i += 1;
    }
    let ghost shown = quoted@;
    push_repeated(&mut quoted, '\\', pending);
    push_repeated(&mut quoted, '\\', pending);
    assert(quoted@ =~= shown + backslashes((2 * pending) as nat));
    quoted.push('"');
    assert(quoted@ =~= argument_text(arg@));
    quoted
}

/// The arguments of a command line with a space between them.
pub open spec fn arguments_text(args: Seq<Seq<char>>) -> Seq<char>
    decreases args.len(),
{
    if args.len() == 0 {
        Seq::empty()
    } else if args.len() == 1 {
        argument_text(args[0])
    } else {
        arguments_text(args.drop_last()).push(' ') + argument_text(args.last())
    }
}

/// The arguments of a command line with a space between them.
#[must_use]
pub fn join_windows_args(args: &Vec<String>) -> (r: String)
    ensures
        r@ == arguments_text(strings_view(args@)),
{
    let ghost texts = strings_view(args@);
    let mut r = String::new();
    let mut i: usize = 0;
    assert(r@ =~= arguments_text(texts.take(0)));
    while i < args.len()
        invariant
            i <= args@.len(),
            texts == strings_view(args@),
            r@ == arguments_text(texts.take(i as int)),
        decreases args@.len() - i,
    {
        if i > 0 {
            r.push(' ');
        }
        let quoted = quote_windows_arg(&args[i]);
        push_text(&mut r, &quoted);
        i += 1;
        proof {
            let longer = texts.take(i as int);
            assert(longer.drop_last() =~= texts.take(i - 1));
            assert(longer.last() == args@[i - 1]@);
            if i == 1 {
                assert(longer[0] == args@[0]@);
            }
            assert(r@ =~= arguments_text(longer));
        }
    }
    assert(texts.take(texts.len() as int) =~= texts);
    r
}

// ---------------------------------------------------------------------------------------------
// Reading arguments back
// ---------------------------------------------------------------------------------------------

/// What a program reads from the text of one argument, behind `pending` backslashes: before a quote
/// every two backslashes are one, and an odd one makes the quote part of the argument; elsewhere
/// backslashes are what they are. Quotes that are not part of the argument are dropped.
pub open spec fn argument_read(text: Seq<char>, pending: nat) -> Seq<char>
    decreases text.len(),
{
    if text.len() == 0 {
        backslashes(pending)
    } else if text[0] == '\\' {
        argument_read(text.drop_first(), pending + 1)
    } else if text[0] == '"' {
        if pending % 2 == 1 {
            backslashes(pending / 2) + seq!['"'] + argument_read(text.drop_first(), 0)
        } else {
            backslashes(pending / 2) + argument_read(text.drop_first(), 0)
        }
    } else {
        backslashes(pending) + seq![text[0]] + argument_read(text.drop_first(), 0)
    }
}

proof fn lemma_read_backslashes(count: nat, text: Seq<char>, pending: nat)
    ensures
        argument_read(backslashes(count) + text, pending) == argument_read(text, pending + count),
    decreases count,
{
    if count == 0 {
        assert(backslashes(0) + text =~= text);
    } else {
        let whole = backslashes(count) + text;
        assert(whole[0] == '\\');
        assert(whole.drop_first() =~= backslashes((count - 1) as nat) + text);
        lemma_read_backslashes((count - 1) as nat, text, pending + 1);
    }
}

proof fn lemma_read_escaped(rest: Seq<char>, pending: nat)
    ensures
        argument_read(escaped(rest, pending) + seq!['"'], 0) == backslashes(pending) + rest,
    decreases rest.len(),
{
    let close = seq!['"'];
    let text = escaped(rest, pending) + close;
    if rest.len() == 0 {
        lemma_read_backslashes(2 * pending, close, 0);
        assert(close.drop_first() =~= Seq::<char>::empty());
        assert(2 * pending / 2 == pending && 2 * pending % 2 == 0);
        reveal_with_fuel(argument_read, 2);
        assert(argument_read(close, 2 * pending) =~= backslashes(pending));
        assert(backslashes(pending) + rest =~= backslashes(pending));
    } else {
        let tail = rest.drop_first();
        if rest[0] == '\\' {
            lemma_read_escaped(tail, pending + 1);
            assert(backslashes(pending + 1) + tail =~= backslashes(pending) + rest);
        } else if rest[0] == '"' {
            lemma_read_escaped(tail, 0);
            let later = escaped(tail, 0) + close;
            let from_quote = seq!['"'] + later;
            assert(text =~= backslashes(2 * pending + 1) + from_quote);
            lemma_read_backslashes(2 * pending + 1, from_quote, 0);
            assert(from_quote.drop_first() =~= later);
            assert((2 * pending + 1) / 2 == pending as int && (2 * pending + 1) % 2 == 1);
            assert(backslashes(pending) + seq!['"'] + (backslashes(0) + tail) =~= backslashes(pending)
                + rest);
        } else {
            lemma_read_escaped(tail, 0);
            let later = escaped(tail, 0) + close;
            let from_char = seq![rest[0]] + later;
            assert(text =~= backslashes(pending) + from_char);
            lemma_read_backslashes(pending, from_char, 0);
            assert(from_char.drop_first() =~= later);
            assert(backslashes(pending) + seq![rest[0]] + (backslashes(0) + tail) =~= backslashes(
                pending,
            ) + rest);
        }
    }
}

proof fn lemma_read_plain(text: Seq<char>, pending: nat)
    requires
        forall|i: int| 0 <= i < text.len() ==> #[trigger] text[i] != '"',
    ensures
        argument_read(text, pending) == backslashes(pending) + text,
    decreases text.len(),
{
    if text.len() > 0 {
        let tail = text.drop_first();
        if text[0] == '\\' {
            lemma_read_plain(tail, pending + 1);
            assert(backslashes(pending + 1) + tail =~= backslashes(pending) + text);
        } else {
            lemma_read_plain(tail, 0);
            assert(backslashes(pending) + seq![text[0]] + (backslashes(0) + tail) =~= backslashes(
                pending,
            ) + text);
        }
    } else {
        assert(backslashes(pending) + text =~= backslashes(pending));
    }
}

/// An argument that was put into a command line is read back as it was.
pub proof fn arguments_read_back(arg: Seq<char>)
    ensures
        argument_read(argument_text(arg), 0) == arg,
{
    let text = argument_text(arg);
    if is_quoted(arg) {
        let inside = escaped(arg, 0) + seq!['"'];
        lemma_read_escaped(arg, 0);
        assert(text =~= seq!['"'] + inside);
        assert(text.drop_first() =~= inside);
        assert(backslashes(0) + (backslashes(0) + arg) =~= arg);
        assert(argument_read(text, 0) =~= arg);
    } else {
        assert forall|i: int| 0 <= i < arg.len() implies #[trigger] arg[i] != '"' by {}
        lemma_read_plain(arg, 0);
        assert(backslashes(0) + arg =~= arg);
    }
}

/// Where the reading of a command line stands: the arguments that were read, what was read of the
/// next one and whether there is one, how many backslashes are held back, and whether it is quoted.
pub struct LineReading {
    pub found: Seq<Seq<char>>,
    pub current: Seq<char>,
    pub started: bool,
    pub pending: nat,
    pub quoted: bool,
}

impl LineReading {
    /// The reading before the next argument.
    pub open spec fn behind(found: Seq<Seq<char>>) -> LineReading {
        LineReading { found, current: Seq::empty(), started: false, pending: 0, quoted: false }
    }

    /// The arguments once the next one has ended.
    pub open spec fn ended(self) -> Seq<Seq<char>> {
        if self.started {
            self.found.push(self.current + backslashes(self.pending))
        } else {
            self.found
        }
    }

    /// The arguments that a program reads from the rest of its command line: they are parted by spaces
    /// and tabs outside of quotes. Before a quote every two backslashes are one, and an odd one makes
    /// the quote part of the argument; elsewhere backslashes are what they are.
    pub open spec fn read(self, text: Seq<char>) -> Seq<Seq<char>>
        decreases text.len(),
    {
        if text.len() == 0 {
            self.ended()
        } else {
            let c = text[0];
            let rest = text.drop_first();
            if c == '\\' {
                (LineReading { pending: self.pending + 1, started: true, ..self }).read(rest)
            } else if c == '"' && self.pending % 2 == 1 {
                (LineReading {
                    current: self.current + backslashes(self.pending / 2) + seq!['"'],
                    pending: 0,
                    started: true,
                    ..self
                }).read(rest)
            } else if c == '"' {
                (LineReading {
                    current: self.current + backslashes(self.pending / 2),
                    pending: 0,
                    started: true,
                    quoted: !self.quoted,
                    ..self
                }).read(rest)
            } else if (c == ' ' || c == '\t') && !self.quoted {
                LineReading::behind(self.ended()).read(rest)
            } else {
                (LineReading {
                    current: self.current + backslashes(self.pending) + seq![c],
                    pending: 0,
                    started: true,
                    ..self
                }).read(rest)
            }
        }
    }
}

/// Whether what follows an argument is the end of the line, or a space.
pub open spec fn parts_off(rest: Seq<char>) -> bool {
    rest.len() == 0 || rest[0] == ' '
}

/// The arguments that are read where an argument has ended and this follows it.
pub open spec fn read_behind(rest: Seq<char>, found: Seq<Seq<char>>) -> Seq<Seq<char>> {
    if rest.len() == 0 {
        found
    } else {
        LineReading::behind(found).read(rest.drop_first())
    }
}

proof fn lemma_line_backslashes(at: LineReading, count: nat, text: Seq<char>)
    requires
        at.started,
    ensures
        at.read(backslashes(count) + text) == (LineReading { pending: at.pending + count, ..at }).read(text),
    decreases count,
{
    if count == 0 {
        assert(backslashes(0) + text =~= text);
    } else {
        let whole = backslashes(count) + text;
        assert(whole[0] == '\\');
        assert(whole.drop_first() =~= backslashes((count - 1) as nat) + text);
        lemma_line_backslashes(
            (LineReading { pending: at.pending + 1, ..at }),
            (count - 1) as nat,
            text,
        );
    }
}

proof fn lemma_line_plain(at: LineReading, text: Seq<char>, rest: Seq<char>)
    requires
        !at.quoted,
        at.started || text.len() > 0,
        !at.started ==> at.current.len() == 0 && at.pending == 0,
        forall|i: int|
            0 <= i < text.len() ==> #[trigger] text[i] != '"' && text[i] != ' ' && text[i] != '\t',
        parts_off(rest),
    ensures
        at.read(text + rest) == read_behind(
            rest,
            at.found.push(at.current + backslashes(at.pending) + text),
        ),
    decreases text.len(),
{
    if text.len() == 0 {
        assert(text + rest =~= rest);
        assert(at.current + backslashes(at.pending) + text =~= at.current + backslashes(at.pending));
    } else {
        let tail = text.drop_first();
        let whole = text + rest;
        assert(whole[0] == text[0]);
        assert(whole.drop_first() =~= tail + rest);
        assert forall|i: int| 0 <= i < tail.len() implies #[trigger] tail[i] != '"' && tail[i] != ' '
            && tail[i] != '\t' by {
            assert(tail[i] == text[i + 1]);
        }
        if text[0] == '\\' {
            let next = LineReading { pending: at.pending + 1, started: true, ..at };
            lemma_line_plain(next, tail, rest);
            assert(next.current + backslashes(next.pending) + tail =~= at.current + backslashes(
                at.pending,
            ) + text);
        } else {
            let next = LineReading {
                current: at.current + backslashes(at.pending) + seq![text[0]],
                pending: 0,
                started: true,
                ..at
            };
            lemma_line_plain(next, tail, rest);
            assert(next.current + backslashes(next.pending) + tail =~= at.current + backslashes(
                at.pending,
            ) + text);
        }
    }
}

proof fn lemma_line_escaped(at: LineReading, arg: Seq<char>, pending: nat, rest: Seq<char>)
    requires
        at.quoted,
        at.started,
        at.pending == 0,
        parts_off(rest),
    ensures
        at.read(escaped(arg, pending) + seq!['"'] + rest) == read_behind(
            rest,
            at.found.push(at.current + backslashes(pending) + arg),
        ),
    decreases arg.len(),
{
    let close = seq!['"'] + rest;
    let text = escaped(arg, pending) + seq!['"'] + rest;
    assert(text =~= escaped(arg, pending) + close);
    if arg.len() == 0 {
        lemma_line_backslashes(at, 2 * pending, close);
        let held = LineReading { pending: 2 * pending, ..at };
        assert(close.drop_first() =~= rest);
        assert(2 * pending / 2 == pending && 2 * pending % 2 == 0);
        let shut = LineReading {
            current: at.current + backslashes(pending),
            pending: 0,
            quoted: false,
            ..at
        };
        assert(held.read(close) == shut.read(rest));
        lemma_line_plain(shut, Seq::empty(), rest);
        assert(Seq::<char>::empty() + rest =~= rest);
        assert(shut.current + backslashes(0) + Seq::<char>::empty() =~= at.current + backslashes(pending)
            + arg);
    } else {
        let tail = arg.drop_first();
        if arg[0] == '\\' {
            lemma_line_escaped(at, tail, pending + 1, rest);
            assert(at.current + backslashes(pending + 1) + tail =~= at.current + backslashes(pending)
                + arg);
        } else if arg[0] == '"' {
            let later = escaped(tail, 0) + seq!['"'] + rest;
            let from_quote = seq!['"'] + later;
            assert(text =~= backslashes(2 * pending + 1) + from_quote);
            lemma_line_backslashes(at, 2 * pending + 1, from_quote);
            let held = LineReading { pending: 2 * pending + 1, ..at };
            assert(from_quote.drop_first() =~= later);
            assert((2 * pending + 1) / 2 == pending as int && (2 * pending + 1) % 2 == 1);
            let next = LineReading {
                current: at.current + backslashes(pending) + seq!['"'],
                pending: 0,
                ..at
            };
            assert(held.read(from_quote) == next.read(later));
            lemma_line_escaped(next, tail, 0, rest);
            assert(next.current + backslashes(0) + tail =~= at.current + backslashes(pending) + arg);
        } else {
            let later = escaped(tail, 0) + seq!['"'] + rest;
            let from_char = seq![arg[0]] + later;
            assert(text =~= backslashes(pending) + from_char);
            lemma_line_backslashes(at, pending, from_char);
            let held = LineReading { pending, ..at };
            assert(from_char.drop_first() =~= later);
            let next = LineReading {
                current: at.current + backslashes(pending) + seq![arg[0]],
                pending: 0,
                ..at
            };
            assert(held.read(from_char) == next.read(later));
            lemma_line_escaped(next, tail, 0, rest);
            assert(next.current + backslashes(0) + tail =~= at.current + backslashes(pending) + arg);
        }
    }
}

proof fn lemma_line_argument(found: Seq<Seq<char>>, arg: Seq<char>, rest: Seq<char>)
    requires
        parts_off(rest),
    ensures
        LineReading::behind(found).read(argument_text(arg) + rest) == read_behind(rest, found.push(arg)),
{
    let at = LineReading::behind(found);
    if is_quoted(arg) {
        let inside = escaped(arg, 0) + seq!['"'] + rest;
        let text = argument_text(arg) + rest;
        assert(text =~= seq!['"'] + inside);
        assert(text.drop_first() =~= inside);
        let next = LineReading {
            current: at.current + backslashes(0),
            started: true,
            quoted: true,
            ..at
        };
        assert(at.read(text) == next.read(inside));
        lemma_line_escaped(next, arg, 0, rest);
        assert(next.current + backslashes(0) + arg =~= arg);
    } else {
        assert forall|i: int| 0 <= i < arg.len() implies #[trigger] arg[i] != '"' && arg[i] != ' '
            && arg[i] != '\t' by {
            assert(!is_white_space_spec(arg[i]));
        }
        lemma_line_plain(at, arg, rest);
        assert(at.current + backslashes(0) + arg =~= arg);
    }
}

proof fn lemma_line_arguments(found: Seq<Seq<char>>, args: Seq<Seq<char>>, rest: Seq<char>)
    requires
        args.len() > 0,
        parts_off(rest),
    ensures
        LineReading::behind(found).read(arguments_text(args) + rest) == read_behind(rest, found + args),
    decreases args.len(),
{
    if args.len() == 1 {
        lemma_line_argument(found, args[0], rest);
        assert(found + args =~= found.push(args[0]));
    } else {
        let front = args.drop_last();
        let last = args.last();
        let later = argument_text(last) + rest;
        let behind = seq![' '] + later;
        assert(arguments_text(args) + rest =~= arguments_text(front) + behind);
        lemma_line_arguments(found, front, behind);
        assert(behind.drop_first() =~= later);
        lemma_line_argument(found + front, last, rest);
        assert((found + front).push(last) =~= found + args);
    }
}

/// A command line is read back by the program that gets it: as the same arguments, as many as there
/// were, whatever spaces, quotes and backslashes are in them, and empty ones too.
pub proof fn a_command_line_reads_back(args: Seq<Seq<char>>)
    ensures
        LineReading::behind(Seq::empty()).read(arguments_text(args)) == args,
{
    if args.len() == 0 {
        assert(args =~= Seq::<Seq<char>>::empty());
    } else {
        lemma_line_arguments(Seq::empty(), args, Seq::empty());
        assert(arguments_text(args) + Seq::<char>::empty() =~= arguments_text(args));
        assert(Seq::<Seq<char>>::empty() + args =~= args);
    }
}

} // verus!
