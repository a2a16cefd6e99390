//! Handing the file, or the folder it sits in, to something outside the
//! window. Everything Comma starts outside itself is written down here.

use vstd::prelude::*;
use crate::document::Dialect;
use crate::document::serialize::same_chars;
use crate::text::{chars_of, string_of};
use super::texts;

verus! {

/// A terminal Comma knows how to start.
#[derive(Debug, Clone, Copy, PartialEq, Eq)]
pub struct Terminal {
    pub program: &'static str,
    /// The flag that starts it in a named folder, or none for one that opens
    /// wherever it was started from.
    pub folder: Option<&'static str>,
    /// The flag a command to run in the new terminal follows.
    pub command: &'static str,
}

/// A terminal as its text.
pub struct TerminalM {
    pub program: Seq<char>,
    pub folder: Option<Seq<char>>,
    pub command: Seq<char>,
}

impl View for Terminal {
    type V = TerminalM;

    open spec fn view(&self) -> TerminalM {
        TerminalM {
            program: self.program@,
            folder: match self.folder {
                Some(f) => Some(f@),
                None => None,
            },
            command: self.command@,
        }
    }
}

/// The terminals Comma knows, in the order it looks for one: GNOME's own
/// first, then whichever the system chose, then xterm.
pub open spec fn terminal_table() -> Seq<TerminalM> {
    seq![
        TerminalM { program: "ptyxis"@, folder: Some("-d"@), command: "--"@ },
        TerminalM { program: "kgx"@, folder: Some("--working-directory"@), command: "--"@ },
        TerminalM { program: "gnome-terminal"@, folder: Some("--working-directory"@), command: "--"@ },
        TerminalM { program: "x-terminal-emulator"@, folder: None, command: "-e"@ },
        TerminalM { program: "xterm"@, folder: None, command: "-e"@ },
    ]
}

/// The terminals Comma knows, in the order it looks for one.
pub fn terminals() -> (r: Vec<Terminal>)
    ensures
        r@.map_values(|t: Terminal| t@) == terminal_table(),
{
    let r = vec![
        Terminal { program: "ptyxis", folder: Some("-d"), command: "--" },
        Terminal { program: "kgx", folder: Some("--working-directory"), command: "--" },
        Terminal { program: "gnome-terminal", folder: Some("--working-directory"), command: "--" },
        Terminal { program: "x-terminal-emulator", folder: None, command: "-e" },
        Terminal { program: "xterm", folder: None, command: "-e" },
    ];
    assert(r@.map_values(|t: Terminal| t@) =~= terminal_table());
    r
}

/// The first of `table` that is installed.
pub open spec fn first_installed(table: Seq<TerminalM>, installed: Seq<Seq<char>>) -> Option<
    TerminalM,
>
    decreases table.len(),
{
    if table.len() == 0 {
        None
    } else if installed.contains(table[0].program) {
        Some(table[0])
    } else {
        first_installed(table.drop_first(), installed)
    }
}

/// The last part of a path: what follows its last `/`, or all of it.
pub open spec fn base_name(s: Seq<char>) -> Seq<char>
    decreases s.len(),
{
    if s.len() == 0 {
        s
    } else if s.last() == '/' {
        Seq::empty()
    } else {
        base_name(s.drop_last()).push(s.last())
    }
}

/// The first of `table` with this program name.
pub open spec fn entry_named(table: Seq<TerminalM>, name: Seq<char>) -> Option<TerminalM>
    decreases table.len(),
{
    if table.len() == 0 {
        None
    } else if table[0].program == name {
        Some(table[0])
    } else {
        entry_named(table.drop_first(), name)
    }
}

/// The table's entry for a terminal named by its name or by its path.
pub open spec fn entry_for_name(name: Seq<char>) -> Option<TerminalM> {
    entry_named(terminal_table(), base_name(name))
}

/// The program to start and what the table knows of it: the terminal asked
/// for when it is named and installed, else the first installed one the
/// table knows.
pub open spec fn chosen_terminal(asked: Option<Seq<char>>, installed: Seq<Seq<char>>) -> Option<
    (Seq<char>, Option<TerminalM>),
> {
    let by_name = match asked {
        Some(n) => if n.len() > 0 && installed.contains(n) {
            Some((n, entry_for_name(n)))
        } else {
            None
        },
        None => None,
    };
    if by_name is Some {
        by_name
    } else {
        match first_installed(terminal_table(), installed) {
            Some(t) => Some((t.program, Some(t))),
            None => None,
        }
    }
}

/// The command that opens a terminal in `folder`, running `command` in it
/// when there is one.
pub open spec fn terminal_command(
    folder: Seq<char>,
    asked: Option<Seq<char>>,
    installed: Seq<Seq<char>>,
    command: Seq<Seq<char>>,
) -> Option<Seq<Seq<char>>> {
    match chosen_terminal(asked, installed) {
        None => None,
        Some((program, known)) => {
            let folder_part = match known {
                Some(t) => match t.folder {
                    Some(flag) => seq![flag, folder],
                    None => Seq::empty(),
                },
                None => Seq::empty(),
            };
            let command_part = if command.len() > 0 {
                seq![
                    match known {
                        Some(t) => t.command,
                        None => "-e"@,
                    },
                ] + command
            } else {
                Seq::empty()
            };
            Some(seq![program] + folder_part + command_part)
        },
    }
}

/// Whether `name` is among the installed programs.
fn is_installed(installed: &[&str], name: &[char]) -> (r: bool)
    ensures
        r == installed@.map_values(|s: &str| s@).contains(name@),
{
    let ghost names = installed@.map_values(|s: &str| s@);
    let mut k: usize = 0;
    while k < installed.len()
        invariant
            k <= installed@.len(),
            names == installed@.map_values(|s: &str| s@),
            forall|i: int| 0 <= i < k ==> names[i] != name@,
        decreases installed@.len() - k,
    {
        let candidate = chars_of(installed[k]);
        if same_chars(candidate.as_slice(), name) {
            assert(names[k as int] == name@);
            return true;
        }
        k = k + 1;
    }
    false
}

/// The characters of `name` after its last `/`.
fn base_name_of(name: &[char]) -> (r: Vec<char>)
    ensures
        r@ == base_name(name@),
{
    let mut start: usize = name.len();
    assert(name@.subrange(0, name@.len() as int) =~= name@);
    assert(name@.subrange(name@.len() as int, name@.len() as int) =~= Seq::<char>::empty());
    while start > 0 && name[start - 1] != '/'
        invariant
            start <= name@.len(),
            base_name(name@) == base_name(name@.subrange(0, start as int)) + name@.subrange(
                start as int,
                name@.len() as int,
            ),
        decreases start,
    {
        let ghost before = name@.subrange(0, start as int);
        assert(before.drop_last() =~= name@.subrange(0, start - 1));
        assert(name@.subrange(start - 1, name@.len() as int) =~= seq![before.last()]
            + name@.subrange(start as int, name@.len() as int));
        start = start - 1;
    }
    if start > 0 {
        assert(name@.subrange(0, start as int).last() == '/');
    }
    let mut r: Vec<char> = Vec::new();
    let mut k: usize = start;
    while k < name.len()
        invariant
            start <= k <= name@.len(),
            r@ == name@.subrange(start as int, k as int),
        decreases name@.len() - k,
    {
        r.push(name[k]);
        k = k + 1;
        assert(r@ =~= name@.subrange(start as int, k as int));
    }
    assert(base_name(name@.subrange(0, start as int)) =~= Seq::<char>::empty());
    r
}

/// The table's entry for a terminal named either by its name or by its
/// path, since both are things people put in `$TERMINAL`.
pub fn entry_for(name: &str) -> (r: Option<Terminal>)
    ensures
        r is Some <==> entry_for_name(name@) is Some,
        r matches Some(t) ==> entry_for_name(name@) == Some(t@),
{
    let base = base_name_of(chars_of(name).as_slice());
    let table = terminals();
    let ghost tm = table@.map_values(|t: Terminal| t@);
    let mut k: usize = 0;
    assert(tm.subrange(0, tm.len() as int) =~= tm);
    while k < table.len()
        invariant
            k <= table@.len(),
            tm == table@.map_values(|t: Terminal| t@),
            tm == terminal_table(),
            base@ == base_name(name@),
            entry_named(tm, base@) == entry_named(tm.subrange(k as int, tm.len() as int), base@),
        decreases table@.len() - k,
    {
        let ghost rest = tm.subrange(k as int, tm.len() as int);
        assert(rest[0] == table@[k as int]@);
        let program = chars_of(table[k].program);
        if same_chars(program.as_slice(), base.as_slice()) {
            return Some(table[k]);
        }
        assert(rest.drop_first() =~= tm.subrange(k + 1, tm.len() as int));
        k = k + 1;
    }
    None
}

/// The first terminal of the table that is installed.
fn first_installed_terminal(installed: &[&str]) -> (r: Option<Terminal>)
    ensures
        r is Some <==> first_installed(terminal_table(), installed@.map_values(|s: &str| s@)) is Some,
        r matches Some(t) ==> first_installed(terminal_table(), installed@.map_values(|s: &str| s@))
            == Some(t@),
{
    let ghost names = installed@.map_values(|s: &str| s@);
    let table = terminals();
    let ghost tm = table@.map_values(|t: Terminal| t@);
    let mut k: usize = 0;
    assert(tm.subrange(0, tm.len() as int) =~= tm);
    while k < table.len()
        invariant
            k <= table@.len(),
            tm == table@.map_values(|t: Terminal| t@),
            tm == terminal_table(),
            names == installed@.map_values(|s: &str| s@),
            first_installed(tm, names) == first_installed(tm.subrange(k as int, tm.len() as int), names),
        decreases table@.len() - k,
    {
        let ghost rest = tm.subrange(k as int, tm.len() as int);
        assert(rest[0] == table@[k as int]@);
        let program = chars_of(table[k].program);
        if is_installed(installed, program.as_slice()) {
            return Some(table[k]);
        }
        assert(rest.drop_first() =~= tm.subrange(k + 1, tm.len() as int));
        k = k + 1;
    }
    None
}

/// A `String` holding the text of `s`.
fn owned(s: &str) -> (r: String)
    ensures
        r@ == s@,
{
    s.to_owned()
}

/// The command that opens a terminal in `folder`, running `command` in it
/// when there is one. `installed` names the programs found installed, among
/// them any asked for; `None` when no terminal is.
pub fn command_for(folder: &str, asked_for: Option<&str>, installed: &[&str], command: &[String]) -> (r:
    Option<Vec<String>>)
    ensures
        r is Some <==> terminal_command(
            folder@,
            match asked_for {
                Some(a) => Some(a@),
                None => None,
            },
            installed@.map_values(|s: &str| s@),
            command@.map_values(|s: String| s@),
        ) is Some,
        r matches Some(argv) ==> terminal_command(
            folder@,
            match asked_for {
                Some(a) => Some(a@),
                None => None,
            },
            installed@.map_values(|s: &str| s@),
            command@.map_values(|s: String| s@),
        ) == Some(texts(argv@)),
{
    let ghost names = installed@.map_values(|s: &str| s@);
    let ghost asked = match asked_for {
        Some(a) => Some(a@),
        None => None,
    };
    let mut program: &str = "";
    let mut known: Option<Terminal> = None;
    let mut picked = false;
    if let Some(name) = asked_for {
        let chars = chars_of(name);
        if chars.len() > 0 && is_installed(installed, chars.as_slice()) {
            program = name;
            known = entry_for(name);
            picked = true;
        }
    }
    if !picked {
        match first_installed_terminal(installed) {
            Some(t) => {
                program = t.program;
                known = Some(t);
            },
            None => {
                return None;
            },
        }
    }
    let ghost choice = chosen_terminal(asked, names);
    assert(choice matches Some((p, k)) && p == program@ && k == match known {
        Some(t) => Some(t@),
        None => None,
    });
    let mut argv: Vec<String> = Vec::new();
    argv.push(owned(program));
    if let Some(t) = known {
        if let Some(flag) = t.folder {
            argv.push(owned(flag));
            argv.push(owned(folder));
        }
    }
    let ghost head = texts(argv@);
    if command.len() > 0 {
        let flag = match known {
            Some(t) => t.command,
            None => "-e",
        };
        let ghost prev = argv@;
        argv.push(owned(flag));
        assert(texts(argv@) =~= texts(prev).push(flag@));
        assert(command@.map_values(|s: String| s@).subrange(0, 0) =~= Seq::<Seq<char>>::empty());
        let mut k: usize = 0;
        while k < command.len()
            invariant
                k <= command@.len(),
                texts(argv@) == head + seq![flag@] + command@.map_values(|s: String| s@).subrange(0, k as int),
            decreases command@.len() - k,
        {
            let ghost prev = argv@;
            argv.push(owned(command[k].as_str()));
            assert(texts(argv@) =~= texts(prev).push(command@[k as int]@));
            k = k + 1;
            assert(texts(argv@) =~= head + seq![flag@] + command@.map_values(|s: String| s@).subrange(0, k as int));
        }
        assert(command@.map_values(|s: String| s@).subrange(0, command@.len() as int) =~= command@.map_values(|s: String| s@));
    }
    assert(texts(argv@) =~= terminal_command(folder@, asked, names, command@.map_values(|s: String| s@)).unwrap());
    Some(argv)
}

/// A command-line tool Comma can hand the open file to, in the order the
/// menu offers them.
#[derive(Debug, Clone, Copy, PartialEq, Eq, Structural)]
pub enum Tool {
    Xled,
    Xql,
    Nved,
}

/// The program a tool is, which is also what the menu calls it.
pub open spec fn program_of(tool: Tool) -> Seq<char> {
    match tool {
        Tool::Xled => "xled"@,
        Tool::Xql => "xql"@,
        Tool::Nved => "nved"@,
    }
}

/// The name of the action that opens the file in a tool.
pub open spec fn action_of(tool: Tool) -> Seq<char> {
    match tool {
        Tool::Xled => "open-with-xled"@,
        Tool::Xql => "open-with-xql"@,
        Tool::Nved => "open-with-nved"@,
    }
}

/// How a tool is told the delimiter: as itself, but for the tab, which is
/// written `\t`.
pub open spec fn delimiter_flag(c: char) -> Seq<char> {
    if c == '\t' {
        seq!['\\', 't']
    } else {
        seq![c]
    }
}

/// The flags xled and xql take for what Comma is reading.
pub open spec fn reading_flags_of(dialect: Dialect, header: bool) -> Seq<Seq<char>> {
    seq!["-d"@, delimiter_flag(dialect.delimiter_char())] + if header {
        Seq::empty()
    } else {
        seq!["--no-header"@]
    }
}

/// The startup commands that open nved on the view of the file Comma has:
/// the preset for the dialect, or the delimiter with quoting turned on, and
/// then the header setting, which has the last word.
pub open spec fn nved_specs_of(dialect: Dialect, header: bool) -> Seq<Seq<char>> {
    (if dialect == Dialect::spec_comma() {
        seq!["+csv"@]
    } else if dialect == Dialect::spec_tab() {
        seq!["+tsv"@]
    } else if dialect == Dialect::spec_unit_separator() {
        seq!["+asv"@]
    } else {
        seq!["+dsv "@.push(dialect.delimiter_char()), "+quotes on"@]
    }) + seq![
        if header {
            "+headers on"@
        } else {
            "+headers off"@
        },
    ]
}

/// The command that opens a file in a tool, carrying what Comma knows of it.
pub open spec fn invocation_of(tool: Tool, dialect: Dialect, header: bool, path: Seq<char>) -> Seq<
    Seq<char>,
> {
    seq![program_of(tool)] + match tool {
        Tool::Xled => reading_flags_of(dialect, header),
        Tool::Xql => seq!["csv"@] + reading_flags_of(dialect, header),
        Tool::Nved => nved_specs_of(dialect, header),
    } + seq![path]
}

impl Tool {
    /// The tools, in the order the menu offers them.
    pub fn all() -> (r: Vec<Tool>)
        ensures
            r@ == seq![Tool::Xled, Tool::Xql, Tool::Nved],
    {
        let r = vec![Tool::Xled, Tool::Xql, Tool::Nved];
        assert(r@ =~= seq![Tool::Xled, Tool::Xql, Tool::Nved]);
        r
    }

    /// The program to look for, which is also what the menu calls it.
    pub fn program(self) -> (r: &'static str)
        ensures
            r@ == program_of(self),
    {
        match self {
            Tool::Xled => "xled",
            Tool::Xql => "xql",
            Tool::Nved => "nved",
        }
    }

    /// The action that opens the file in the tool.
    pub fn action(self) -> (r: &'static str)
        ensures
            r@ == action_of(self),
    {
        match self {
            Tool::Xled => "open-with-xled",
            Tool::Xql => "open-with-xql",
            Tool::Nved => "open-with-nved",
        }
    }

    /// Whether the tool can read a file in this dialect. xled and xql end a
    /// record at a line break, so a file whose records end with the ASCII
    /// record separator is nved's alone.
    pub fn reads(self, dialect: Dialect) -> (r: bool)
        ensures
            r == (self == Tool::Nved || dialect != Dialect::spec_unit_separator()),
    {
        match self {
            Tool::Xled | Tool::Xql => dialect != Dialect::unit_separator(),
            Tool::Nved => true,
        }
    }
}

/// Appends a string to a list of them.
fn push_text(argv: &mut Vec<String>, s: String)
    ensures
        texts(final(argv)@) == texts(old(argv)@).push(s@),
{
    let ghost before = argv@;
    argv.push(s);
    assert(texts(argv@) =~= texts(before).push(s@));
}

/// How xled and xql are told what Comma is reading.
pub fn reading_flags(dialect: Dialect, header: bool) -> (r: Vec<String>)
    ensures
        texts(r@) == reading_flags_of(dialect, header),
{
    let delimiter = dialect.delimiter();
    let written: String = if delimiter == '\t' {
        let tab = ['\\', 't'];
        assert(tab@ =~= seq!['\\', 't']);
        string_of(tab.as_slice())
    } else {
        let one = [delimiter];
        assert(one@ =~= seq![delimiter]);
        string_of(one.as_slice())
    };
    let mut flags: Vec<String> = Vec::new();
    push_text(&mut flags, owned("-d"));
    push_text(&mut flags, written);
    if !header {
        push_text(&mut flags, owned("--no-header"));
    }
    assert(texts(flags@) =~= reading_flags_of(dialect, header));
    flags
}

/// The startup commands that open nved on the view of the file Comma has.
pub fn nved_specs(dialect: Dialect, header: bool) -> (r: Vec<String>)
    ensures
        texts(r@) == nved_specs_of(dialect, header),
{
    let mut specs: Vec<String> = Vec::new();
    if dialect == Dialect::comma() {
        push_text(&mut specs, owned("+csv"));
    } else if dialect == Dialect::tab() {
        push_text(&mut specs, owned("+tsv"));
    } else if dialect == Dialect::unit_separator() {
        push_text(&mut specs, owned("+asv"));
    } else {
        let mut preset = chars_of("+dsv ");
        preset.push(dialect.delimiter());
        push_text(&mut specs, string_of(preset.as_slice()));
        push_text(&mut specs, owned("+quotes on"));
    }
    if header {
        push_text(&mut specs, owned("+headers on"));
    } else {
        push_text(&mut specs, owned("+headers off"));
    }
    assert(texts(specs@) =~= nved_specs_of(dialect, header));
    specs
}

/// The command that opens the file at `path` in a tool, carrying the
/// delimiter Comma is reading with and whether the first row is a header.
pub fn invocation(tool: Tool, dialect: Dialect, header: bool, path: &str) -> (r: Vec<String>)
    ensures
        texts(r@) == invocation_of(tool, dialect, header, path@),
{
    let mut argv: Vec<String> = Vec::new();
    push_text(&mut argv, owned(tool.program()));
    let extra = match tool {
        Tool::Xled => reading_flags(dialect, header),
        Tool::Xql => {
            let mut flags: Vec<String> = Vec::new();
            push_text(&mut flags, owned("csv"));
            let rest = reading_flags(dialect, header);
            let mut k: usize = 0;
            let ghost start = texts(flags@);
            while k < rest.len()
                invariant
                    k <= rest@.len(),
                    texts(flags@) == start + texts(rest@).subrange(0, k as int),
                decreases rest@.len() - k,
            {
                push_text(&mut flags, owned(rest[k].as_str()));
                k = k + 1;
                assert(texts(flags@) =~= start + texts(rest@).subrange(0, k as int));
            }
            assert(texts(rest@).subrange(0, rest@.len() as int) =~= texts(rest@));
            flags
        },
        Tool::Nved => nved_specs(dialect, header),
    };
    let ghost head = texts(argv@);
    let mut k: usize = 0;
    while k < extra.len()
        invariant
            k <= extra@.len(),
            texts(argv@) == head + texts(extra@).subrange(0, k as int),
        decreases extra@.len() - k,
    {
        push_text(&mut argv, owned(extra[k].as_str()));
        k = k + 1;
        assert(texts(argv@) =~= head + texts(extra@).subrange(0, k as int));
    }
    assert(texts(extra@).subrange(0, extra@.len() as int) =~= texts(extra@));
    push_text(&mut argv, owned(path));
    assert(texts(argv@) =~= invocation_of(tool, dialect, header, path@));
    argv
}

} // verus!
