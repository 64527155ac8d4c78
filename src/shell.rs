//! Shell dialects and the export statements that hand a credential session to each.
use vstd::prelude::*;
use vstd::string::*;
use vstd::utf8::encode_utf8;
use crate::text::{append_str, chars_of, ends_with, ends_with_chars, push_char};

verus! {

/// The command interpreters whose export syntax is supported.
#[derive(PartialEq, Eq, Structural, Debug)]
pub enum Shell {
    Bash,
    Sh,
    Zsh,
    Fish,
    Cmd,
    PowerShell,
}

impl Default for Shell {
    fn default() -> (r: Shell)
        ensures
            r == Shell::Bash,
    {
        Shell::Bash
    }
}

/// `a` becomes `b` under ASCII lowercasing.
pub open spec fn lowers_to(a: char, b: char) -> bool {
    if 'A' <= a <= 'Z' {
        a as u32 + 32 == b as u32
    } else {
        a == b
    }
}

/// `s`, lowercased in ASCII, ends with `t`.
pub open spec fn ends_with_ignoring_case(s: Seq<char>, t: Seq<char>) -> bool {
    &&& t.len() <= s.len()
    &&& forall|k: int| 0 <= k < t.len() ==> lowers_to(#[trigger] s[s.len() - t.len() + k], t[k])
}

/// The dialect of the interpreter at path `s`: Unix executable names match
/// case-sensitively, Windows ones case-insensitively, and anything else is Bash.
pub open spec fn dialect_of(s: Seq<char>) -> Shell {
    if ends_with(s, "/bin/bash"@) {
        Shell::Bash
    } else if ends_with(s, "/bin/zsh"@) {
        Shell::Zsh
    } else if ends_with(s, "/bin/sh"@) {
        Shell::Sh
    } else if ends_with(s, "/bin/fish"@) {
        Shell::Fish
    } else if ends_with_ignoring_case(s, "cmd.exe"@) {
        Shell::Cmd
    } else if ends_with_ignoring_case(s, "powershell.exe"@) || ends_with_ignoring_case(
        s,
        "pwsh.exe"@,
    ) {
        Shell::PowerShell
    } else {
        Shell::Bash
    }
}

/// Replaces each character `c` of `s` by `f(c)`.
pub open spec fn escaped_with(s: Seq<char>, f: spec_fn(char) -> Seq<char>) -> Seq<char>
    decreases s.len(),
{
    if s.len() == 0 {
        Seq::empty()
    } else {
        f(s[0]) + escaped_with(s.skip(1), f)
    }
}

/// Unix-family escaping of one character: `'` becomes `'\''`, `"` becomes `\"`.
pub open spec fn unix_escaped_char(c: char) -> Seq<char> {
    if c == '\'' {
        seq!['\'', '\\', '\'', '\'']
    } else if c == '"' {
        seq!['\\', '"']
    } else {
        seq![c]
    }
}

/// cmd escaping of one character: `"` is doubled.
pub open spec fn cmd_escaped_char(c: char) -> Seq<char> {
    if c == '"' {
        seq!['"', '"']
    } else {
        seq![c]
    }
}

/// PowerShell escaping of one character: a backtick goes before each backtick,
/// double quote and dollar sign.
pub open spec fn powershell_escaped_char(c: char) -> Seq<char> {
    if c == '`' || c == '"' || c == '$' {
        seq!['`', c]
    } else {
        seq![c]
    }
}

/// `unix_escaped_char` as a function value.
pub open spec fn unix_rule() -> spec_fn(char) -> Seq<char> {
    |c: char| unix_escaped_char(c)
}

/// `cmd_escaped_char` as a function value.
pub open spec fn cmd_rule() -> spec_fn(char) -> Seq<char> {
    |c: char| cmd_escaped_char(c)
}

/// `powershell_escaped_char` as a function value.
pub open spec fn powershell_rule() -> spec_fn(char) -> Seq<char> {
    |c: char| powershell_escaped_char(c)
}

/// `s` escaped for a single-quoted Unix shell string.
pub open spec fn unix_escaped(s: Seq<char>) -> Seq<char> {
    escaped_with(s, unix_rule())
}

/// `s` escaped for a double-quoted cmd string.
pub open spec fn cmd_escaped(s: Seq<char>) -> Seq<char> {
    escaped_with(s, cmd_rule())
}

/// `s` escaped for a double-quoted PowerShell string.
pub open spec fn powershell_escaped(s: Seq<char>) -> Seq<char> {
    escaped_with(s, powershell_rule())
}

/// Escaping one more character appends its replacement.
pub proof fn lemma_escaped_push(s: Seq<char>, c: char, f: spec_fn(char) -> Seq<char>)
    ensures
        escaped_with(s.push(c), f) == escaped_with(s, f) + f(c),
    decreases s.len(),
{
    if s.len() == 0 {
        assert(s.push(c).skip(1) =~= Seq::<char>::empty());
        assert(escaped_with(s.push(c).skip(1), f) =~= Seq::<char>::empty());
        assert(s.push(c)[0] == c);
        assert(escaped_with(s, f) =~= Seq::<char>::empty());
        assert(escaped_with(s.push(c), f) =~= f(c));
    } else {
        lemma_escaped_push(s.skip(1), c, f);
        assert(s.push(c).skip(1) =~= s.skip(1).push(c));
        assert(s.push(c)[0] == s[0]);
        assert(escaped_with(s.push(c), f) =~= f(s[0]) + (escaped_with(s.skip(1), f) + f(c)));
    }
}

/// Whether `a` becomes `b` under ASCII lowercasing.
fn char_lowers_to(a: char, b: char) -> (r: bool)
    ensures
        r == lowers_to(a, b),
{
    if 'A' <= a && a <= 'Z' {
        (a as u32) + 32 == b as u32
    } else {
        a == b
    }
}

/// Whether `s`, lowercased in ASCII, ends with `t`.
fn ends_with_ignoring_case_chars(s: &Vec<char>, t: &Vec<char>) -> (r: bool)
    ensures
        r == ends_with_ignoring_case(s@, t@),
{
    if t.len() > s.len() {
        return false;
    }
    let start = s.len() - t.len();
    let mut k: usize = 0;
    while k < t.len()
        invariant
            start == s.len() - t.len(),
            k <= t.len(),
            forall|m: int| 0 <= m < k ==> lowers_to(#[trigger] s@[start + m], t@[m]),
        decreases t.len() - k,
    {
        if !char_lowers_to(s[start + k], t[k]) {
            return false;
        }
        k += 1;
    }
    true
}

impl<'a> From<&'a str> for Shell {
    /// The dialect of the interpreter at path `s`.
    fn from(s: &'a str) -> (r: Shell)
        ensures
            r == dialect_of(s@),
    {
        let text = chars_of(s);
        if ends_with_chars(&text, &chars_of("/bin/bash")) {
            Shell::Bash
        } else if ends_with_chars(&text, &chars_of("/bin/zsh")) {
            Shell::Zsh
        } else if ends_with_chars(&text, &chars_of("/bin/sh")) {
            Shell::Sh
        } else if ends_with_chars(&text, &chars_of("/bin/fish")) {
            Shell::Fish
        } else if ends_with_ignoring_case_chars(&text, &chars_of("cmd.exe")) {
            Shell::Cmd
        } else if ends_with_ignoring_case_chars(&text, &chars_of("powershell.exe"))
            || ends_with_ignoring_case_chars(&text, &chars_of("pwsh.exe")) {
            Shell::PowerShell
        } else {
            Shell::Bash
        }
    }
}

impl<'a> vstd::std_specs::convert::FromSpecImpl<&'a str> for Shell {
    open spec fn obeys_from_spec() -> bool {
        true
    }

    open spec fn from_spec(v: &'a str) -> Shell {
        dialect_of(v@)
    }
}

/// The escaping rule of `shell`'s values.
pub open spec fn escape_for(shell: Shell, v: Seq<char>) -> Seq<char> {
    match shell {
        Shell::Cmd => cmd_escaped(v),
        Shell::PowerShell => powershell_escaped(v),
        _ => unix_escaped(v),
    }
}

/// The statement that sets variable `name` to the already escaped `value` in `shell`.
pub open spec fn set_statement(shell: Shell, name: Seq<char>, value: Seq<char>) -> Seq<char> {
    match shell {
        Shell::Fish => "set -x "@ + name + " \""@ + value + "\""@,
        Shell::Cmd => "set \""@ + name + "="@ + value + "\""@,
        Shell::PowerShell => "Set-Variable -Name \""@ + name + "\" -Value \""@ + value + "\""@,
        _ => "export "@ + name + "='"@ + value + "'"@,
    }
}

/// The statement that sets the prompt to the already escaped `value` in `shell`.
pub open spec fn prompt_statement(shell: Shell, value: Seq<char>) -> Seq<char> {
    match shell {
        Shell::Cmd => set_statement(shell, "PROMPT"@, value),
        Shell::PowerShell => "function prompt { \""@ + value + "\" }"@,
        _ => set_statement(shell, "PS1"@, value),
    }
}

/// The four export lines of `shell`, in order: access key, secret key, session
/// token, prompt.
pub open spec fn export_text(
    shell: Shell,
    id: Seq<char>,
    secret: Seq<char>,
    token: Seq<char>,
    ps: Seq<char>,
) -> Seq<char> {
    set_statement(shell, "AWS_ACCESS_KEY_ID"@, escape_for(shell, id)) + "\n"@
        + set_statement(shell, "AWS_SECRET_ACCESS_KEY"@, escape_for(shell, secret)) + "\n"@
        + set_statement(shell, "AWS_SESSION_TOKEN"@, escape_for(shell, token)) + "\n"@
        + prompt_statement(shell, escape_for(shell, ps)) + "\n"@
}

impl Shell {
    /// Escapes `value` for a single-quoted Unix shell string.
    pub fn escape_unix_quotes(value: &str) -> (r: String)
        ensures
            r@ == unix_escaped(value@),
    {
        let mut r = String::new();
        for c in it: value.chars()
            invariant
                r@ == unix_escaped(it.seq().take(it.index() as int)),
        {
            proof {
                lemma_escaped_push(it.seq().take(it.index() as int), c, unix_rule());
                assert(it.seq().take(it.index() + 1) =~= it.seq().take(it.index() as int).push(c));
            }
            if c == '\'' {
                push_char(&mut r, '\'');
                push_char(&mut r, '\\');
                push_char(&mut r, '\'');
                push_char(&mut r, '\'');
            } else if c == '"' {
                push_char(&mut r, '\\');
                push_char(&mut r, '"');
            } else {
                push_char(&mut r, c);
            }
            assert(r@ =~= unix_escaped(it.seq().take(it.index() as int)) + unix_escaped_char(c));
        }
        assert(value@.take(value@.len() as int) =~= value@);
        r
    }

    /// Escapes `value` for a double-quoted cmd string.
    pub fn escape_cmd_quotes(value: &str) -> (r: String)
        ensures
            r@ == cmd_escaped(value@),
    {
        let mut r = String::new();
        for c in it: value.chars()
            invariant
                r@ == cmd_escaped(it.seq().take(it.index() as int)),
        {
            proof {
                lemma_escaped_push(it.seq().take(it.index() as int), c, cmd_rule());
                assert(it.seq().take(it.index() + 1) =~= it.seq().take(it.index() as int).push(c));
            }
            if c == '"' {
                push_char(&mut r, '"');
                push_char(&mut r, '"');
            } else {
                push_char(&mut r, c);
            }
            assert(r@ =~= cmd_escaped(it.seq().take(it.index() as int)) + cmd_escaped_char(c));
        }
        assert(value@.take(value@.len() as int) =~= value@);
        r
    }

    /// Escapes `value` for a double-quoted PowerShell string.
    pub fn escape_powershell_quotes(value: &str) -> (r: String)
        ensures
            r@ == powershell_escaped(value@),
    {
        let mut r = String::new();
        for c in it: value.chars()
            invariant
                r@ == powershell_escaped(it.seq().take(it.index() as int)),
        {
            proof {
                lemma_escaped_push(it.seq().take(it.index() as int), c, powershell_rule());
                assert(it.seq().take(it.index() + 1) =~= it.seq().take(it.index() as int).push(c));
            }
            if c == '`' || c == '"' || c == '$' {
                push_char(&mut r, '`');
            }
            push_char(&mut r, c);
            assert(r@ =~= powershell_escaped(it.seq().take(it.index() as int))
                + powershell_escaped_char(c));
        }
        assert(value@.take(value@.len() as int) =~= value@);
        r
    }

    /// Escapes `value` by this dialect's rule.
    fn escape(&self, value: &str) -> (r: String)
        ensures
            r@ == escape_for(*self, value@),
    {
        match self {
            Shell::Cmd => Self::escape_cmd_quotes(value),
            Shell::PowerShell => Self::escape_powershell_quotes(value),
            _ => Self::escape_unix_quotes(value),
        }
    }

    /// Appends to `out` the statement that sets `name` to the escaped `value`.
    fn push_set_statement(&self, out: &mut String, name: &str, value: &str)
        ensures
            final(out)@ == old(out)@ + set_statement(*self, name@, value@),
    {
        match self {
            Shell::Fish => {
                append_str(out, "set -x ");
                append_str(out, name);
                append_str(out, " \"");
                append_str(out, value);
                append_str(out, "\"");
            },
            Shell::Cmd => {
                append_str(out, "set \"");
                append_str(out, name);
                append_str(out, "=");
                append_str(out, value);
                append_str(out, "\"");
            },
            Shell::PowerShell => {
                append_str(out, "Set-Variable -Name \"");
                append_str(out, name);
                append_str(out, "\" -Value \"");
                append_str(out, value);
                append_str(out, "\"");
            },
            _ => {
                append_str(out, "export ");
                append_str(out, name);
                append_str(out, "='");
                append_str(out, value);
                append_str(out, "'");
            },
        }
        assert(final(out)@ =~= old(out)@ + set_statement(*self, name@, value@));
    }

    /// Appends to `out` the statement that sets the prompt to the escaped `value`.
    fn push_prompt_statement(&self, out: &mut String, value: &str)
        ensures
            final(out)@ == old(out)@ + prompt_statement(*self, value@),
    {
        match self {
            Shell::Cmd => self.push_set_statement(out, "PROMPT", value),
            Shell::PowerShell => {
                append_str(out, "function prompt { \"");
                append_str(out, value);
                append_str(out, "\" }");
                assert(final(out)@ =~= old(out)@ + prompt_statement(*self, value@));
            },
            _ => self.push_set_statement(out, "PS1", value),
        }
    }

    /// Writes to `out` the four statements that hand the session to this shell, one
    /// per line: access key, secret key, session token, prompt. Each value is escaped
    /// by the dialect's rule.
    pub fn export(self, out: &mut Vec<u8>, id: &str, secret: &str, token: &str, ps: &str)
        ensures
            final(out)@ == old(out)@ + encode_utf8(export_text(self, id@, secret@, token@, ps@)),
    {
        let mut text = String::new();
        self.push_set_statement(&mut text, "AWS_ACCESS_KEY_ID", self.escape(id).as_str());
        append_str(&mut text, "\n");
        self.push_set_statement(&mut text, "AWS_SECRET_ACCESS_KEY", self.escape(secret).as_str());
        append_str(&mut text, "\n");
        self.push_set_statement(&mut text, "AWS_SESSION_TOKEN", self.escape(token).as_str());
        append_str(&mut text, "\n");
        self.push_prompt_statement(&mut text, self.escape(ps).as_str());
        append_str(&mut text, "\n");
        assert(text@ =~= export_text(self, id@, secret@, token@, ps@));
        let bytes = text.as_str().as_bytes();
        let ghost start = out@;
        let mut k: usize = 0;
        while k < bytes.len()
            invariant
                k <= bytes@.len(),
                out@ == start + bytes@.take(k as int),
            decreases bytes@.len() - k,
        {
            out.push(bytes[k]);
            assert(bytes@.take(k + 1) =~= bytes@.take(k as int).push(bytes@[k as int]));
            k += 1;
        }
        assert(bytes@.take(k as int) =~= bytes@);
    }
}

/// How a POSIX shell reads `s` inside a single-quoted word: characters stand for
/// themselves, and a quote is only allowed as the sequence `'\''` (close, escaped
/// quote, reopen), which stands for one quote. `None` when a quote would end the
/// word early.
pub open spec fn read_single_quoted(s: Seq<char>) -> Option<Seq<char>>
    decreases s.len(),
{
    if s.len() == 0 {
        Some(Seq::empty())
    } else if s[0] == '\'' {
        if s.len() >= 4 && s[1] == '\\' && s[2] == '\'' && s[3] == '\'' {
            match read_single_quoted(s.skip(4)) {
                Some(r) => Some(seq!['\''] + r),
                None => None,
            }
        } else {
            None
        }
    } else {
        match read_single_quoted(s.skip(1)) {
            Some(r) => Some(seq![s[0]] + r),
            None => None,
        }
    }
}

/// A double quote preceded by a backslash, every other character as it is.
pub open spec fn backslashed_double_quote(c: char) -> Seq<char> {
    if c == '"' {
        seq!['\\', '"']
    } else {
        seq![c]
    }
}

/// `backslashed_double_quote` as a function value.
pub open spec fn backslash_rule() -> spec_fn(char) -> Seq<char> {
    |c: char| backslashed_double_quote(c)
}

/// Unix-family escaping is injection-safe: inside the single quotes of an `export`
/// statement, the escaped value never ends the quoted word early; the shell reads
/// back the value, with each double quote preceded by a backslash.
pub proof fn law_unix_escaping_stays_quoted(v: Seq<char>)
    ensures
        read_single_quoted(unix_escaped(v)) == Some(escaped_with(v, backslash_rule())),
    decreases v.len(),
{
    if v.len() > 0 {
        law_unix_escaping_stays_quoted(v.skip(1));
        let e = unix_escaped(v);
        let rest = unix_escaped(v.skip(1));
        let back = escaped_with(v.skip(1), backslash_rule());
        assert(e == unix_escaped_char(v[0]) + rest);
        assert(escaped_with(v, backslash_rule()) == backslashed_double_quote(v[0]) + back);
        if v[0] == '\'' {
            assert(e[0] == '\'' && e[1] == '\\' && e[2] == '\'' && e[3] == '\'');
            assert(e.skip(4) =~= rest);
            assert(read_single_quoted(e) == Some(seq!['\''] + back));
        } else if v[0] == '"' {
            assert(e[0] == '\\');
            assert(e.skip(1) =~= seq!['"'] + rest);
            assert((seq!['"'] + rest).skip(1) =~= rest);
            assert(read_single_quoted(seq!['"'] + rest) == Some(seq!['"'] + back));
            assert(read_single_quoted(e) == Some(seq!['\\'] + (seq!['"'] + back)));
            assert(seq!['\\'] + (seq!['"'] + back) =~= backslashed_double_quote(v[0]) + back);
        } else {
            assert(e[0] == v[0]);
            assert(e.skip(1) =~= rest);
            assert(read_single_quoted(e) == Some(seq![v[0]] + back));
        }
    }
}

/// A value without double quotes is read back exactly from its Unix-family escaping.
pub proof fn law_unix_escaping_round_trip(v: Seq<char>)
    requires
        forall|k: int| 0 <= k < v.len() ==> #[trigger] v[k] != '"',
    ensures
        read_single_quoted(unix_escaped(v)) == Some(v),
    decreases v.len(),
{
    law_unix_escaping_stays_quoted(v);
    lemma_no_double_quote(v);
}

proof fn lemma_no_double_quote(v: Seq<char>)
    requires
        forall|k: int| 0 <= k < v.len() ==> #[trigger] v[k] != '"',
    ensures
        escaped_with(v, backslash_rule()) == v,
    decreases v.len(),
{
    if v.len() > 0 {
        assert forall|k: int| 0 <= k < v.skip(1).len() implies #[trigger] v.skip(1)[k] != '"' by {
            assert(v.skip(1)[k] == v[k + 1]);
        }
        lemma_no_double_quote(v.skip(1));
        assert(seq![v[0]] + v.skip(1) =~= v);
    }
}

} // verus!
