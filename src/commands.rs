use vstd::prelude::*;
use crate::lexer::is_space;
use crate::text::{push_str, same_text};

verus! {

/// What a command's arguments are, for completion.
#[derive(Debug, PartialEq, Eq, Hash, Copy, Clone)]
pub enum ArgType {
    Symbol,
    File,
    Boolean,
    Number,
    Command,
}

/// A meta-command: its name, the argument counts it takes (any count when
/// empty), and the kind of its arguments.
#[derive(Debug, PartialEq, Clone)]
pub struct Command<'name> {
    pub name: &'name str,
    pub arities: Vec<usize>,
    pub arg: Option<ArgType>,
}

pub const COMMAND_PREFIX: &'static str = ":";

pub const HELP_COMMAND: &'static str = "help";

/// How an argument kind is named in usage lines.
pub open spec fn arg_text(arg: Option<ArgType>) -> Seq<char> {
    match arg {
        None => "arg"@,
        Some(ArgType::Symbol) => "Symbol"@,
        Some(ArgType::File) => "File"@,
        Some(ArgType::Boolean) => "Boolean"@,
        Some(ArgType::Number) => "Number"@,
        Some(ArgType::Command) => "Command"@,
    }
}

/// `n` arguments, each after a space.
pub open spec fn repeat_arg(arg: Seq<char>, n: nat) -> Seq<char>
    decreases n,
{
    if n == 0 {
        Seq::empty()
    } else {
        repeat_arg(arg, (n - 1) as nat) + " "@ + arg
    }
}

/// One usage line for each argument count.
pub open spec fn usage_lines(name: Seq<char>, arities: Seq<usize>, arg: Seq<char>) -> Seq<char>
    decreases arities.len(),
{
    if arities.len() == 0 {
        Seq::empty()
    } else {
        usage_lines(name, arities.drop_last(), arg) + "\t:"@ + name + repeat_arg(
            arg,
            arities.last() as nat,
        ) + "\n"@
    }
}

/// The help text of a command.
pub open spec fn command_help(name: Seq<char>, arities: Seq<usize>, arg: Option<ArgType>) -> Seq<char> {
    name + "\n"@ + "USAGE:\n"@ + if arities.len() > 0 {
        usage_lines(name, arities, arg_text(arg))
    } else {
        "\t:"@ + name + " ["@ + arg_text(arg) + "...]\n"@
    }
}

impl<'name> Command<'name> {
    pub fn new(name: &'name str, arg: ArgType) -> (r: Command<'name>)
        ensures
            r.name == name,
            r.arities@.len() == 0,
            r.arg == Some(arg),
    {
        Command { name, arities: Vec::new(), arg: Some(arg) }
    }

    pub fn with_arities(name: &'name str, arg: ArgType, arities: Vec<usize>) -> (r: Command<'name>)
        ensures
            r.name == name,
            r.arities == arities,
            r.arg == Some(arg),
    {
        Command { name, arities, arg: Some(arg) }
    }

    pub fn unary(name: &'name str, arg: ArgType) -> (r: Command<'name>)
        ensures
            r.name == name,
            r.arities@ == seq![1usize],
            r.arg == Some(arg),
    {
        let mut arities = Vec::new();
        arities.push(1);
        Command { name, arities, arg: Some(arg) }
    }

    pub fn nullary(name: &'name str) -> (r: Command<'name>)
        ensures
            r.name == name,
            r.arities@ == seq![0usize],
            r.arg is None,
    {
        let mut arities = Vec::new();
        arities.push(0);
        Command { name, arities, arg: None }
    }

    /// Appends the command's name and a usage line for each argument count.
    pub fn write_help(&self, out: &mut String)
        ensures
            final(out)@ == old(out)@ + command_help(self.name@, self.arities@, self.arg),
    {
        push_str(out, self.name);
        push_str(out, "\n");
        push_str(out, "USAGE:\n");
        let arg: &str = match self.arg {
            None => "arg",
            Some(ArgType::Symbol) => "Symbol",
            Some(ArgType::File) => "File",
            Some(ArgType::Boolean) => "Boolean",
            Some(ArgType::Number) => "Number",
            Some(ArgType::Command) => "Command",
        };
        let ghost head = out@;
        if self.arities.len() > 0 {
            let mut i: usize = 0;
            assert(self.arities@.subrange(0, 0) =~= Seq::<usize>::empty());
            while i < self.arities.len()
                invariant
                    i <= self.arities@.len(),
                    arg@ == arg_text(self.arg),
                    out@ == head + usage_lines(self.name@, self.arities@.subrange(0, i as int), arg@),
                decreases self.arities@.len() - i,
            {
                push_str(out, "\t:");
                push_str(out, self.name);
                let ghost line_start = out@;
                let mut j: usize = 0;
                while j < self.arities[i]
                    invariant
                        i < self.arities@.len(),
                        j <= self.arities@[i as int],
                        out@ == line_start + repeat_arg(arg@, j as nat),
                    decreases self.arities@[i as int] - j,
                {
                    push_str(out, " ");
                    push_str(out, arg);
                    assert(out@ =~= line_start + repeat_arg(arg@, (j + 1) as nat));
                    j = j + 1;
                }
                push_str(out, "\n");
                assert(self.arities@.subrange(0, i + 1).drop_last() =~= self.arities@.subrange(
                    0,
                    i as int,
                ));
                assert(out@ =~= head + usage_lines(
                    self.name@,
                    self.arities@.subrange(0, i + 1),
                    arg@,
                ));
                i = i + 1;
            }
            assert(self.arities@.subrange(0, i as int) =~= self.arities@);
        } else {
            push_str(out, "\t:");
            push_str(out, self.name);
            push_str(out, " [");
            push_str(out, arg);
            push_str(out, "...]\n");
        }
        assert(out@ =~= old(out)@ + command_help(self.name@, self.arities@, self.arg));
    }
}

/// A command line that names no single command, or gives it a wrong number
/// of arguments.
#[derive(Debug, PartialEq)]
pub struct InvalidCommand<'line>(pub &'line str);

/// A command line resolved to its command and arguments.
#[derive(Debug, PartialEq)]
pub struct CommandCall<'line, 'command> {
    pub command: &'command Command<'command>,
    pub args: Vec<&'line str>,
}

impl<'line> InvalidCommand<'line> {
    /// The diagnostic for the line.
    pub fn to_string(&self) -> (r: String)
        ensures
            r@ == "Invalid command: "@ + self.0@,
    {
        let mut r = String::new();
        push_str(&mut r, "Invalid command: ");
        push_str(&mut r, self.0);
        r
    }
}

/// The arguments, each after a space.
pub open spec fn spaced_args(args: Seq<Seq<char>>) -> Seq<char>
    decreases args.len(),
{
    if args.len() == 0 {
        Seq::empty()
    } else {
        spaced_args(args.drop_last()) + " "@ + args.last()
    }
}

impl<'line, 'command> CommandCall<'line, 'command> {
    /// The call written out: `:`, the command's name, then the arguments.
    pub fn to_string(&self) -> (r: String)
        ensures
            r@ == ":"@ + self.command.name@ + spaced_args(self.args@.map_values(|a: &str| a@)),
    {
        let ghost parts = self.args@.map_values(|a: &str| a@);
        let mut r = String::new();
        push_str(&mut r, COMMAND_PREFIX);
        push_str(&mut r, self.command.name);
        let ghost head = r@;
        let mut i: usize = 0;
        assert(parts.subrange(0, 0) =~= Seq::<Seq<char>>::empty());
        while i < self.args.len()
            invariant
                i <= self.args@.len(),
                parts == self.args@.map_values(|a: &str| a@),
                r@ == head + spaced_args(parts.subrange(0, i as int)),
            decreases self.args@.len() - i,
        {
            push_str(&mut r, " ");
            push_str(&mut r, self.args[i]);
            assert(parts.subrange(0, i + 1).drop_last() =~= parts.subrange(0, i as int));
            assert(r@ =~= head + spaced_args(parts.subrange(0, i + 1)));
            i = i + 1;
        }
        assert(parts.subrange(0, i as int) =~= parts);
        proof {
            reveal_strlit(":");
        }
        r
    }
}

/// The first `:` at or after `i`, or -1.
pub open spec fn first_colon(s: Seq<char>, i: int) -> int
    decreases s.len() - i,
{
    if i < 0 || i >= s.len() {
        -1
    } else if s[i] == ':' {
        i
    } else {
        first_colon(s, i + 1)
    }
}

/// The end of the run of non-space characters that starts at `i`.
pub open spec fn run_end(s: Seq<char>, i: int) -> int
    decreases s.len() - i,
{
    if 0 <= i < s.len() && !is_space(s[i]) {
        run_end(s, i + 1)
    } else {
        i
    }
}

proof fn lemma_run_end_bounds(s: Seq<char>, i: int)
    requires
        0 <= i <= s.len(),
    ensures
        i <= run_end(s, i) <= s.len(),
        i < s.len() && !is_space(s[i]) ==> i < run_end(s, i),
    decreases s.len() - i,
{
    if i < s.len() && !is_space(s[i]) {
        lemma_run_end_bounds(s, i + 1);
    }
}

#[via_fn]
proof fn words_from_decreases(s: Seq<char>, i: int) {
    if 0 <= i < s.len() {
        lemma_run_end_bounds(s, i);
    }
}

/// The whitespace-separated words of `s` from `i` on, as start and end.
pub open spec fn words_from(s: Seq<char>, i: int) -> Seq<(int, int)>
    decreases s.len() - i,
    via words_from_decreases
{
    if i < 0 || i >= s.len() {
        Seq::empty()
    } else if is_space(s[i]) {
        words_from(s, i + 1)
    } else {
        seq![(i, run_end(s, i))] + words_from(s, run_end(s, i))
    }
}

/// The words after the first `:` of a line, or none if it has no `:`.
pub open spec fn command_words(s: Seq<char>) -> Option<Seq<Seq<char>>> {
    let c = first_colon(s, 0);
    if c < 0 {
        None
    } else {
        Some(words_from(s, c + 1).map_values(|w: (int, int)| s.subrange(w.0, w.1)))
    }
}

/// Splits a command line: the word after the first `:` (empty if there is
/// none), the position where it starts, and the words after it.
pub fn tokenize(line: &str) -> (r: Option<(&str, usize, Vec<&str>)>)
    ensures
        match r {
            None => command_words(line@) is None,
            Some((cmd, pos, args)) => command_words(line@) matches Some(ws) && (if ws.len() == 0 {
                cmd@.len() == 0 && args@.len() == 0 && pos == first_colon(line@, 0) + 1
            } else {
                cmd@ == ws[0] && pos == words_from(line@, first_colon(line@, 0) + 1)[0].0
                    && args@.map_values(|a: &str| a@) == ws.drop_first()
            }),
        },
{
    let n = line.unicode_len();
    let mut c: usize = 0;
    while c < n && line.get_char(c) != ':'
        invariant
            n == line@.len(),
            c <= n,
            first_colon(line@, 0) == first_colon(line@, c as int),
        decreases n - c,
    {
        c = c + 1;
    }
    if c == n {
        return None;
    }
    let start = c + 1;
    let ghost s = line@;
    let mut words: Vec<&str> = Vec::new();
    let ghost mut spans: Seq<(int, int)> = Seq::empty();
    let mut first: usize = start;
    let mut i: usize = start;
    while i < n
        invariant
            n == s.len(),
            s == line@,
            start <= i <= n,
            words_from(s, start as int) == spans + words_from(s, i as int),
            words@.len() == spans.len(),
            forall|k: int| 0 <= k < spans.len() ==> (#[trigger] words@[k])@ == s.subrange(
                spans[k].0,
                spans[k].1,
            ),
            spans.len() > 0 ==> first == spans[0].0,
            spans.len() == 0 ==> first == start,
        decreases n - i,
    {
        if is_space_at(line, i) {
            i = i + 1;
        } else {
            let mut j: usize = i;
            proof {
                lemma_run_end_bounds(s, i as int);
            }
            while j < n && !is_space_at(line, j)
                invariant
                    n == s.len(),
                    s == line@,
                    i <= j <= n,
                    run_end(s, i as int) == run_end(s, j as int),
                decreases n - j,
            {
                j = j + 1;
            }
            if words.len() == 0 {
                first = i;
            }
            words.push(line.substring_char(i, j));
            proof {
                assert(spans.push((i as int, j as int)) + words_from(s, j as int) =~= spans + (seq![
                    (i as int, j as int),
                ] + words_from(s, j as int)));
                spans = spans.push((i as int, j as int));
            }
            i = j;
        }
    }
    let ghost ws = spans.map_values(|w: (int, int)| s.subrange(w.0, w.1));
    assert(spans + words_from(s, n as int) =~= spans);
    if words.len() == 0 {
        let empty = line.substring_char(start, start);
        assert(empty@ =~= Seq::<char>::empty());
        return Some((empty, start, words));
    }
    let command = words.remove(0);
    assert(words@.map_values(|a: &str| a@) =~= ws.drop_first());
    Some((command, first, words))
}

fn is_space_at(line: &str, i: usize) -> (r: bool)
    requires
        i < line@.len(),
    ensures
        r == is_space(line@[i as int]),
{
    let c = line.get_char(i);
    ('\u{9}' <= c && c <= '\u{d}') || c == ' ' || c == '\u{85}' || c == '\u{a0}' || c
        == '\u{1680}' || ('\u{2000}' <= c && c <= '\u{200a}') || c == '\u{2028}' || c
        == '\u{2029}' || c == '\u{202f}' || c == '\u{205f}' || c == '\u{3000}'
}

/// Whether `p` is a prefix of `s`.
pub open spec fn is_prefix(p: Seq<char>, s: Seq<char>) -> bool {
    p.len() <= s.len() && s.subrange(0, p.len() as int) == p
}

fn starts_with(s: &str, p: &str) -> (r: bool)
    ensures
        r == is_prefix(p@, s@),
{
    let n = p.unicode_len();
    if n > s.unicode_len() {
        return false;
    }
    let mut i: usize = 0;
    while i < n
        invariant
            n == p@.len(),
            n <= s@.len(),
            i <= n,
            forall|k: int| 0 <= k < i ==> s@[k] == p@[k],
        decreases n - i,
    {
        if s.get_char(i) != p.get_char(i) {
            return false;
        }
        i = i + 1;
    }
    assert(s@.subrange(0, n as int) =~= p@);
    true
}

/// The names of commands, in order.
pub open spec fn command_names(cs: Seq<Command>) -> Seq<Seq<char>> {
    cs.map_values(|c: Command| c.name@)
}

/// The positions of the names that `p` starts.
pub open spec fn prefixed(names: Seq<Seq<char>>, p: Seq<char>) -> Seq<int>
    decreases names.len(),
{
    if names.len() == 0 {
        Seq::empty()
    } else if is_prefix(p, names.last()) {
        prefixed(names.drop_last(), p).push(names.len() - 1)
    } else {
        prefixed(names.drop_last(), p)
    }
}

/// Whether an argument count is allowed.
pub open spec fn arity_ok(arities: Seq<usize>, n: nat) -> bool {
    arities.len() == 0 || exists|i: int| 0 <= i < arities.len() && arities[i] == n
}

fn allows(arities: &Vec<usize>, n: usize) -> (r: bool)
    ensures
        r == arity_ok(arities@, n as nat),
{
    if arities.len() == 0 {
        return true;
    }
    let mut i: usize = 0;
    while i < arities.len()
        invariant
            i <= arities@.len(),
            forall|k: int| 0 <= k < i ==> arities@[k] != n,
        decreases arities@.len() - i,
    {
        if arities[i] == n {
            return true;
        }
        i = i + 1;
    }
    false
}

/// A set of commands, matched by unambiguous prefix.
pub struct Commands<'commands> {
    pub commands: Vec<Command<'commands>>,
}

/// Collects the commands of a `Commands`.
pub struct Builder<'commands> {
    pub commands: Vec<Command<'commands>>,
    pub help: bool,
}

impl<'commands> Builder<'commands> {
    pub fn add(self, command: Command<'commands>) -> (r: Builder<'commands>)
        ensures
            r.commands@ == self.commands@.push(command),
            r.help == self.help,
    {
        let mut b = self;
        b.commands.push(command);
        b
    }

    /// Asks for a `help` command at the end.
    pub fn with_help(self) -> (r: Builder<'commands>)
        ensures
            r.commands == self.commands,
            r.help,
    {
        Builder { commands: self.commands, help: true }
    }

    pub fn done(self) -> (r: Commands<'commands>)
        ensures
            !self.help ==> r.commands == self.commands,
            self.help ==> r.commands@.len() == self.commands@.len() + 1 && r.commands@.drop_last()
                == self.commands@ && r.commands@.last().name == HELP_COMMAND
                && r.commands@.last().arities@ == seq![0usize, 1usize]
                && r.commands@.last().arg == Some(ArgType::Command),
    {
        let mut commands = self.commands;
        if self.help {
            let mut arities = Vec::new();
            arities.push(0);
            arities.push(1);
            let help = Command::with_arities(HELP_COMMAND, ArgType::Command, arities);
            let ghost before = commands@;
            commands.push(help);
            assert(commands@.drop_last() =~= before);
        }
        Commands { commands }
    }
}

impl<'commands> Commands<'commands> {
    pub fn new() -> (r: Builder<'commands>)
        ensures
            r.commands@.len() == 0,
            !r.help,
    {
        Builder { commands: Vec::new(), help: false }
    }

    /// The commands whose names start with `prefix`, in order.
    pub fn match_str(&self, prefix: &str) -> (r: Vec<&Command<'commands>>)
        ensures
            r@.len() == prefixed(command_names(self.commands@), prefix@).len(),
            forall|k: int|
                0 <= k < r@.len() ==> *(#[trigger] r@[k]) == self.commands@[prefixed(
                    command_names(self.commands@),
                    prefix@,
                )[k]],
    {
        let ghost names = command_names(self.commands@);
        let mut r: Vec<&Command<'commands>> = Vec::new();
        let mut i: usize = 0;
        assert(names.subrange(0, 0) =~= Seq::<Seq<char>>::empty());
        while i < self.commands.len()
            invariant
                i <= self.commands@.len(),
                names == command_names(self.commands@),
                r@.len() == prefixed(names.subrange(0, i as int), prefix@).len(),
                forall|k: int|
                    0 <= k < r@.len() ==> *(#[trigger] r@[k]) == self.commands@[prefixed(
                        names.subrange(0, i as int),
                        prefix@,
                    )[k]],
            decreases self.commands@.len() - i,
        {
            let ghost pre = names.subrange(0, i + 1);
            assert(pre.drop_last() =~= names.subrange(0, i as int));
            assert(pre.last() == self.commands@[i as int].name@);
            if starts_with(self.commands[i].name, prefix) {
                r.push(&self.commands[i]);
            }
            i = i + 1;
        }
        assert(names.subrange(0, i as int) =~= names);
        r
    }

    /// Resolves a command line: exactly one command must start with the
    /// word after `:`, and take the number of words after that.
    pub fn parse<'line>(&'commands self, line: &'line str) -> (r: Result<
        CommandCall<'line, 'commands>,
        InvalidCommand<'line>,
    >)
        ensures
            match command_words(line@) {
                None => r is Err,
                Some(ws) => {
                    let word = if ws.len() == 0 {
                        Seq::<char>::empty()
                    } else {
                        ws[0]
                    };
                    let args = if ws.len() == 0 {
                        Seq::<Seq<char>>::empty()
                    } else {
                        ws.drop_first()
                    };
                    let found = prefixed(command_names(self.commands@), word);
                    match r {
                        Ok(call) => found.len() == 1 && *call.command == self.commands@[found[0]]
                            && arity_ok(call.command.arities@, args.len())
                            && call.args@.map_values(|a: &str| a@) == args,
                        Err(e) => e.0 == line && !(found.len() == 1 && arity_ok(
                            self.commands@[found[0]].arities@,
                            args.len(),
                        )),
                    }
                },
            },
    {
        match tokenize(line) {
            None => Err(InvalidCommand(line)),
            Some((command, _, args)) => {
                proof {
                    let ws = command_words(line@)->Some_0;
                    if ws.len() == 0 {
                        assert(command@ =~= Seq::<char>::empty());
                        assert(args@.map_values(|a: &str| a@) =~= Seq::<Seq<char>>::empty());
                    }
                }
                let candidates = self.match_str(command);
                if candidates.len() != 1 {
                    return Err(InvalidCommand(line));
                }
                let found = candidates[0];
                if !allows(&found.arities, args.len()) {
                    return Err(InvalidCommand(line));
                }
                Ok(CommandCall { command: found, args })
            },
        }
    }

    /// Appends the help of the commands named exactly `command_name`, or,
    /// when there is none, the list of all command names.
    pub fn write_help(&self, out: &mut String, command_name: Option<&str>)
        ensures
            final(out)@ == old(out)@ + commands_help(self.commands@, command_name),
    {
        let mut found = false;
        if let Some(name) = command_name {
            let ghost base = out@;
            let mut i: usize = 0;
            while i < self.commands.len()
                invariant
                    i <= self.commands@.len(),
                    command_name == Some(name),
                    out@ == base + exact_help(self.commands@.subrange(0, i as int), name@),
                    found == has_exact(self.commands@.subrange(0, i as int), name@),
                decreases self.commands@.len() - i,
            {
                let ghost pre = self.commands@.subrange(0, i + 1);
                assert(pre.drop_last() =~= self.commands@.subrange(0, i as int));
                if same_text(self.commands[i].name, name) {
                    self.commands[i].write_help(out);
                    found = true;
                }
                i = i + 1;
            }
            assert(self.commands@.subrange(0, i as int) =~= self.commands@);
            if !found {
                assert(exact_help(self.commands@, name@) =~= Seq::<char>::empty()) by {
                    lemma_no_exact(self.commands@, name@);
                }
                push_str(out, "No commands with name: ");
                push_str(out, name);
                push_str(out, "\n");
            }
        }
        if !found {
            push_str(out, "Commands:\n");
            let ghost base = out@;
            let mut i: usize = 0;
            while i < self.commands.len()
                invariant
                    i <= self.commands@.len(),
                    out@ == base + name_list(self.commands@.subrange(0, i as int)),
                decreases self.commands@.len() - i,
            {
                let ghost pre = self.commands@.subrange(0, i + 1);
                assert(pre.drop_last() =~= self.commands@.subrange(0, i as int));
                push_str(out, "\t");
                push_str(out, self.commands[i].name);
                push_str(out, "\n");
                assert(out@ =~= base + name_list(pre));
                i = i + 1;
            }
            assert(self.commands@.subrange(0, i as int) =~= self.commands@);
        }
        assert(out@ =~= old(out)@ + commands_help(self.commands@, command_name));
    }
}

/// The help texts of the commands named exactly `name`.
pub open spec fn exact_help(cs: Seq<Command>, name: Seq<char>) -> Seq<char>
    decreases cs.len(),
{
    if cs.len() == 0 {
        Seq::empty()
    } else if cs.last().name@ == name {
        exact_help(cs.drop_last(), name) + command_help(
            cs.last().name@,
            cs.last().arities@,
            cs.last().arg,
        )
    } else {
        exact_help(cs.drop_last(), name)
    }
}

pub open spec fn has_exact(cs: Seq<Command>, name: Seq<char>) -> bool {
    exists|i: int| 0 <= i < cs.len() && cs[i].name@ == name
}

proof fn lemma_no_exact(cs: Seq<Command>, name: Seq<char>)
    requires
        !has_exact(cs, name),
    ensures
        exact_help(cs, name) == Seq::<char>::empty(),
    decreases cs.len(),
{
    if cs.len() > 0 {
        assert(!has_exact(cs.drop_last(), name)) by {
            if has_exact(cs.drop_last(), name) {
                let i = choose|i: int| 0 <= i < cs.drop_last().len() && cs.drop_last()[i].name@ == name;
                assert(cs[i].name@ == name);
            }
        }
        lemma_no_exact(cs.drop_last(), name);
        assert(cs[cs.len() - 1].name@ != name);
    }
}

/// Each command's name on a line of its own, after a tab.
pub open spec fn name_list(cs: Seq<Command>) -> Seq<char>
    decreases cs.len(),
{
    if cs.len() == 0 {
        Seq::empty()
    } else {
        name_list(cs.drop_last()) + "\t"@ + cs.last().name@ + "\n"@
    }
}

/// The help for `command_name`, or the list of commands.
pub open spec fn commands_help(cs: Seq<Command>, command_name: Option<&str>) -> Seq<char> {
    match command_name {
        Some(name) => if has_exact(cs, name@) {
            exact_help(cs, name@)
        } else {
            "No commands with name: "@ + name@ + "\n"@ + "Commands:\n"@ + name_list(cs)
        },
        None => "Commands:\n"@ + name_list(cs),
    }
}

} // verus!
