use vstd::prelude::*;
use vstd::string::StringExecFns;

verus! {

/// Identity of a node for the purpose of labelling its log lines.
pub struct Utils {
    id: u8,
    debug: bool,
    node_name: String,
}

/// Severity of a log line.
#[derive(Clone, Copy, Debug, PartialEq, Eq, Structural)]
pub enum LogLevel {
    INFO,
    DEBUG,
    ERROR,
}

/// Where a log line is written.
#[derive(Clone, Copy, Debug, PartialEq, Eq, Structural)]
pub enum LogStream {
    Stdout,
    Stderr,
}

/// The character that writes the digit `d`.
pub open spec fn digit_char(d: nat) -> char {
    if d == 0 {
        '0'
    } else if d == 1 {
        '1'
    } else if d == 2 {
        '2'
    } else if d == 3 {
        '3'
    } else if d == 4 {
        '4'
    } else if d == 5 {
        '5'
    } else if d == 6 {
        '6'
    } else if d == 7 {
        '7'
    } else if d == 8 {
        '8'
    } else {
        '9'
    }
}

/// The number `n` written in decimal digits, without leading zeros.
pub open spec fn decimal(n: nat) -> Seq<char>
    decreases n,
{
    if n < 10 {
        seq![digit_char(n)]
    } else {
        decimal(n / 10).push(digit_char(n % 10))
    }
}

/// How a line of the given level starts.
pub open spec fn level_prefix(level: LogLevel) -> Seq<char> {
    match level {
        LogLevel::INFO => "LEVEL: INFO >>> ["@,
        LogLevel::DEBUG => "LEVEL: DEBUG >>> ["@,
        LogLevel::ERROR => "LEVEL: ERROR >>> ["@,
    }
}

fn digit_str(d: u8) -> (s: &'static str)
    requires
        d < 10,
    ensures
        s@ == seq![digit_char(d as nat)],
{
    proof {
        reveal_strlit("0");
        reveal_strlit("1");
        reveal_strlit("2");
        reveal_strlit("3");
        reveal_strlit("4");
        reveal_strlit("5");
        reveal_strlit("6");
        reveal_strlit("7");
        reveal_strlit("8");
        reveal_strlit("9");
    }
    let s = if d == 0 {
        "0"
    } else if d == 1 {
        "1"
    } else if d == 2 {
        "2"
    } else if d == 3 {
        "3"
    } else if d == 4 {
        "4"
    } else if d == 5 {
        "5"
    } else if d == 6 {
        "6"
    } else if d == 7 {
        "7"
    } else if d == 8 {
        "8"
    } else {
        "9"
    };
    assert(s@ =~= seq![digit_char(d as nat)]);
    s
}

/// Appends `n` in decimal digits.
fn append_decimal(line: &mut String, n: u8)
    ensures
        final(line)@ == old(line)@ + decimal(n as nat),
{
    let ghost start = line@;
    if n >= 100 {
        line.append(digit_str(n / 100));
        line.append(digit_str((n / 10) % 10));
        line.append(digit_str(n % 10));
        proof {
            let h = (n / 100) as nat;
            let t = ((n / 10) % 10) as nat;
            let o = (n % 10) as nat;
            assert((n as nat) / 10 == 10 * h + t);
            assert(((n as nat) / 10) / 10 == h);
            assert(((n as nat) / 10) % 10 == t);
            assert(decimal(h) == seq![digit_char(h)]);
            assert(decimal((n as nat) / 10) == decimal(h).push(digit_char(t)));
            assert(decimal(n as nat) == decimal((n as nat) / 10).push(digit_char(o)));
            assert(line@ =~= start + decimal(n as nat));
        }
    } else if n >= 10 {
        line.append(digit_str(n / 10));
        line.append(digit_str(n % 10));
        proof {
            let t = (n / 10) as nat;
            let o = (n % 10) as nat;
            assert(decimal(t) == seq![digit_char(t)]);
            assert(decimal(n as nat) == decimal(t).push(digit_char(o)));
            assert(line@ =~= start + decimal(n as nat));
        }
    } else {
        line.append(digit_str(n));
        proof {
            assert(line@ =~= start + decimal(n as nat));
        }
    }
}

impl Utils {
    pub closed spec fn id(self) -> u8 {
        self.id
    }

    pub closed spec fn debug(self) -> bool {
        self.debug
    }

    pub closed spec fn node_name(self) -> Seq<char> {
        self.node_name@
    }

    /// Whether a line of the given level is written at all: `DEBUG` lines
    /// only when the debug flag is set, the others always.
    pub open spec fn spec_is_logged(self, level: LogLevel) -> bool {
        level != LogLevel::DEBUG || self.debug()
    }

    /// The stream a level goes to: `ERROR` to standard error, the others to
    /// standard output.
    pub open spec fn spec_stream(level: LogLevel) -> LogStream {
        if level == LogLevel::ERROR {
            LogStream::Stderr
        } else {
            LogStream::Stdout
        }
    }

    pub fn new(id: u8, debug: bool, node_name: String) -> (utils: Utils)
        ensures
            utils.id() == id,
            utils.debug() == debug,
            utils.node_name() == node_name@,
    {
        Utils { id, debug, node_name }
    }

    pub fn get_id(&self) -> (id: u8)
        ensures
            id == self.id(),
    {
        self.id
    }

    pub fn get_node_name(&self) -> (name: &String)
        ensures
            name@ == self.node_name(),
    {
        &self.node_name
    }

    pub fn is_logged(&self, level: LogLevel) -> (logged: bool)
        ensures
            logged == self.spec_is_logged(level),
    {
        match level {
            LogLevel::INFO => true,
            LogLevel::DEBUG => self.debug,
            LogLevel::ERROR => true,
        }
    }

    /// The line that is written for a message of the given level: the
    /// level, the node's name and id in brackets, and the message.
    pub open spec fn spec_line(self, log_message: Seq<char>, level: LogLevel) -> Seq<char> {
        level_prefix(level) + self.node_name() + " "@ + decimal(self.id() as nat) + "] - "@
            + log_message
    }

    /// The line to write for a message, `None` where a line of that level
    /// is not written.
    pub fn render(&self, log_message: &str, log_level: LogLevel) -> (line: Option<String>)
        ensures
            match line {
                Some(text) => self.spec_is_logged(log_level) && text@ == self.spec_line(
                    log_message@,
                    log_level,
                ),
                None => !self.spec_is_logged(log_level),
            },
    {
        if !self.is_logged(log_level) {
            return None;
        }
        let mut line = match log_level {
            LogLevel::INFO => String::from_str("LEVEL: INFO >>> ["),
            LogLevel::DEBUG => String::from_str("LEVEL: DEBUG >>> ["),
            LogLevel::ERROR => String::from_str("LEVEL: ERROR >>> ["),
        };
        line.append(self.node_name.as_str());
        line.append(" ");
        append_decimal(&mut line, self.id);
        line.append("] - ");
        line.append(log_message);
        proof {
            assert(line@ =~= self.spec_line(log_message@, log_level));
        }
        Some(line)
    }

    pub fn stream(level: LogLevel) -> (stream: LogStream)
        ensures
            stream == Self::spec_stream(level),
    {
        match level {
            LogLevel::INFO => LogStream::Stdout,
            LogLevel::DEBUG => LogStream::Stdout,
            LogLevel::ERROR => LogStream::Stderr,
        }
    }
}

} // verus!
