//! The command line: the options the load balancer takes, described as plain data,
//! and the reading of a list of argument strings against them, which clap does.

use vstd::prelude::*;
use clap::{Arg, ArgAction, Command};
use vstd::string::*;
use crate::text::{text_of, texts};

verus! {

// ---------------------------------------------------------------- options as data

/// An option of the command line, as clap is told of it: its id, its short name,
/// its long name if any, whether it is required, the character its values are split
/// at if any, whether it may be given more than once (its values then collected),
/// and the name and help text that help shows. Every option takes a value, which
/// clap hands back as text.
pub struct OptionSpec {
    pub id: &'static str,
    pub short: char,
    pub long: Option<&'static str>,
    pub required: bool,
    pub delimiter: Option<char>,
    pub append: bool,
    pub value_name: &'static str,
    pub help: &'static str,
}

/// What an `OptionSpec` holds, as text.
pub struct OptionView {
    pub id: Seq<char>,
    pub short: char,
    pub long: Option<Seq<char>>,
    pub required: bool,
    pub delimiter: Option<char>,
    pub append: bool,
    pub value_name: Seq<char>,
    pub help: Seq<char>,
}

impl View for OptionSpec {
    type V = OptionView;

    open spec fn view(&self) -> OptionView {
        OptionView {
            id: self.id@,
            short: self.short,
            long: match self.long {
                Some(l) => Some(l@),
                None => None,
            },
            required: self.required,
            delimiter: self.delimiter,
            append: self.append,
            value_name: self.value_name@,
            help: self.help@,
        }
    }
}

/// A command: its name, the text that help shows about it, and its options.
pub struct CommandSpec {
    pub name: &'static str,
    pub about: &'static str,
    pub options: Vec<OptionSpec>,
}

/// What a `CommandSpec` holds, as text.
pub struct CommandView {
    pub name: Seq<char>,
    pub about: Seq<char>,
    pub options: Seq<OptionView>,
}

impl View for CommandSpec {
    type V = CommandView;

    open spec fn view(&self) -> CommandView {
        CommandView {
            name: self.name@,
            about: self.about@,
            options: self.options@.map_values(|o: OptionSpec| o@),
        }
    }
}

/// A command that clap accepts: every option has a short name other than `-` and
/// `h` (taken by help), no id `help`, and a long name, if any, that is not empty,
/// does not start with `-` and is not `help`; ids, short names and long names are
/// not shared between options.
pub open spec fn command_accepted(c: CommandView) -> bool {
    let os = c.options;
    &&& forall|i: int|
        0 <= i < os.len() ==> {
            &&& (#[trigger] os[i]).short != '-'
            &&& os[i].short != 'h'
            &&& os[i].id != "help"@
            &&& (os[i].long matches Some(l) ==> l.len() > 0 && l[0] != '-' && l != "help"@)
        }
    &&& forall|i: int, j: int|
        0 <= i < j < os.len() ==> {
            &&& (#[trigger] os[i]).id != (#[trigger] os[j]).id
            &&& os[i].short != os[j].short
            &&& (os[i].long is Some && os[j].long is Some ==> os[i].long != os[j].long)
        }
}

// ---------------------------------------------------------------- the load balancer's options

/// The load balancer's command line: six required options, each taking a value;
/// `--bind` may be given more than once, its values split at commas. (The values of
/// `-i` and `-s` are then read as `u64`, that of `-r` as `u32`: see
/// `arguments_of_values`.)
pub open spec fn declared_command() -> CommandView {
    CommandView {
        name: "load_balancer"@,
        about: "Represents the command-line arguments for the load balancer."@,
        options: seq![
            OptionView {
                id: "load_balancer_ip"@,
                short: 'l',
                long: Some("load-balancer-ip"@),
                required: true,
                delimiter: None,
                append: false,
                value_name: "LOAD_BALANCER_IP"@,
                help: "Load balancer IP address"@,
            },
            OptionView {
                id: "health_check_path"@,
                short: 'p',
                long: None,
                required: true,
                delimiter: None,
                append: false,
                value_name: "HEALTH_CHECK_PATH"@,
                help: "Health check path"@,
            },
            OptionView {
                id: "health_check_interval"@,
                short: 'i',
                long: None,
                required: true,
                delimiter: None,
                append: false,
                value_name: "HEALTH_CHECK_INTERVAL"@,
                help: "Health check interval : the time interval in seconds between health checks"@,
            },
            OptionView {
                id: "bind"@,
                short: 'b',
                long: Some("bind"@),
                required: true,
                delimiter: Some(','),
                append: true,
                value_name: "UPSTREAM_SERVERS"@,
                help: "Upstream server IPs : the LXC container IPs of the web servers"@,
            },
            OptionView {
                id: "window_size_secs"@,
                short: 's',
                long: None,
                required: true,
                delimiter: None,
                append: false,
                value_name: "WINDOW_SIZE_SECS"@,
                help: "Sliding window size in seconds : how long the user can send requests before they are rate limited"@,
            },
            OptionView {
                id: "max_requests"@,
                short: 'r',
                long: None,
                required: true,
                delimiter: None,
                append: false,
                value_name: "MAX_REQUESTS"@,
                help: "Maximum number of requests : the maximum number of requests the user can send within the sliding window"@,
            },
        ],
    }
}

/// The load balancer's command line, as data.
pub fn load_balancer_command() -> (r: CommandSpec)
    ensures
        r@ == declared_command(),
        command_accepted(r@),
{
    let options = vec![
        OptionSpec {
            id: "load_balancer_ip",
            short: 'l',
            long: Some("load-balancer-ip"),
            required: true,
            delimiter: None,
            append: false,
            value_name: "LOAD_BALANCER_IP",
            help: "Load balancer IP address",
        },
        OptionSpec {
            id: "health_check_path",
            short: 'p',
            long: None,
            required: true,
            delimiter: None,
            append: false,
            value_name: "HEALTH_CHECK_PATH",
            help: "Health check path",
        },
        OptionSpec {
            id: "health_check_interval",
            short: 'i',
            long: None,
            required: true,
            delimiter: None,
            append: false,
            value_name: "HEALTH_CHECK_INTERVAL",
            help: "Health check interval : the time interval in seconds between health checks",
        },
        OptionSpec {
            id: "bind",
            short: 'b',
            long: Some("bind"),
            required: true,
            delimiter: Some(','),
            append: true,
            value_name: "UPSTREAM_SERVERS",
            help: "Upstream server IPs : the LXC container IPs of the web servers",
        },
        OptionSpec {
            id: "window_size_secs",
            short: 's',
            long: None,
            required: true,
            delimiter: None,
            append: false,
            value_name: "WINDOW_SIZE_SECS",
            help: "Sliding window size in seconds : how long the user can send requests before they are rate limited",
        },
        OptionSpec {
            id: "max_requests",
            short: 'r',
            long: None,
            required: true,
            delimiter: None,
            append: false,
            value_name: "MAX_REQUESTS",
            help: "Maximum number of requests : the maximum number of requests the user can send within the sliding window",
        },
    ];
    let r = CommandSpec {
        name: "load_balancer",
        about: "Represents the command-line arguments for the load balancer.",
        options,
    };
    assert(r@.options =~= declared_command().options);
    proof {
        lemma_declared_command_accepted();
    }
    r
}

/// clap accepts the load balancer's command line.
proof fn lemma_declared_command_accepted()
    ensures
        command_accepted(declared_command()),
{
    reveal_strlit("load_balancer_ip");
    reveal_strlit("health_check_path");
    reveal_strlit("health_check_interval");
    reveal_strlit("bind");
    reveal_strlit("window_size_secs");
    reveal_strlit("max_requests");
    reveal_strlit("load-balancer-ip");
    reveal_strlit("help");
    let os = declared_command().options;
    let ids = seq![
        "load_balancer_ip"@,
        "health_check_path"@,
        "health_check_interval"@,
        "bind"@,
        "window_size_secs"@,
        "max_requests"@,
    ];
    let shorts = seq!['l', 'p', 'i', 'b', 's', 'r'];
    assert forall|k: int| 0 <= k < 6 implies os[k].id == ids[k] && os[k].short == shorts[k] by {}
    assert(ids[0].len() == 16 && ids[1].len() == 17 && ids[2].len() == 21 && ids[3].len() == 4);
    assert(ids[4].len() == 16 && ids[5].len() == 12 && ids[0][0] == 'l' && ids[4][0] == 'w');
    assert(ids[3][0] == 'b');
    assert("help"@[0] == 'h');
    assert("load-balancer-ip"@[0] == 'l' && "bind"@[0] == 'b');
    assert forall|i: int, j: int| 0 <= i < j < os.len() implies os[i].id != os[j].id by {
        assert(os[i].id == ids[i] && os[j].id == ids[j]);
        if ids[i].len() == ids[j].len() {
            assert(ids[i][0] != ids[j][0]);
        }
    }
}

// ---------------------------------------------------------------- clap

/// What clap reads from the command line `argv` against the command `command`: for
/// each option of the command, in order, the texts of the values it was given
/// (`None` when it was not given); `None` when clap refuses the command line (help
/// is asked for, or an option is unknown, missing or repeated, or has no value).
pub uninterp spec fn clap_reading(command: CommandView, argv: Seq<Seq<char>>) -> Option<
    Seq<Option<Seq<Seq<char>>>>,
>;

/// The values that clap hands back, as text.
pub open spec fn raw_texts(v: Seq<Option<Vec<String>>>) -> Seq<Option<Seq<Seq<char>>>> {
    v.map_values(
        |o: Option<Vec<String>>|
            match o {
                Some(x) => Some(texts(x@)),
                None => None,
            },
    )
}

/// Reads the command line `argv` (whose first string names the program) with clap:
/// builds a `Command` named and described as `command` says, with one `Arg` per option
/// of `command`, each field of the option handed to the builder method of that name
/// (`append` as `ArgAction::Append`, else `ArgAction::Set`); calls
/// `Command::try_get_matches_from`, and gives, for each option in order, its values
/// (`ArgMatches::get_many`). The result is named by `clap_reading`. On a refusal it
/// gives the message clap renders (`Error::render`), whether clap prints it to
/// standard error (`Error::use_stderr`) and its exit status (`Error::exit_code`); of
/// those nothing is stated.
#[verifier::external_body]
fn read_with_clap(command: &CommandSpec, argv: &Vec<String>) -> (r: Result<
    Vec<Option<Vec<String>>>,
    (String, bool, i32),
>)
    requires
        command_accepted(command@),
    ensures
        r is Ok <==> clap_reading(command@, texts(argv@)) is Some,
        r matches Ok(v) ==> clap_reading(command@, texts(argv@)) == Some(raw_texts(v@)),
        r matches Ok(v) ==> v@.len() == command@.options.len(),
{
    let mut c = Command::new(command.name).about(command.about);
    for o in &command.options {
        c = c.arg(Arg::new(o.id).short(o.short).long(o.long).required(o.required).value_delimiter(o.delimiter)
            .action(if o.append { ArgAction::Append } else { ArgAction::Set }).value_name(o.value_name).help(o.help));
    }
    match c.try_get_matches_from(argv) {
        Ok(m) => Ok(command.options.iter().map(|o| m.get_many(o.id).map(|v| v.cloned().collect())).collect()),
        Err(e) => Err((e.render().to_string(), e.use_stderr(), e.exit_code())),
    }
}

// ---------------------------------------------------------------- numbers

/// `d` is a nonempty run of decimal digits.
pub open spec fn is_digits(d: Seq<char>) -> bool {
    d.len() > 0 && forall|i: int| 0 <= i < d.len() ==> '0' <= #[trigger] d[i] <= '9'
}

/// The number that the decimal digits `d` write.
pub open spec fn digits_value(d: Seq<char>) -> nat
    decreases d.len(),
{
    if d.len() == 0 {
        0
    } else {
        digits_value(d.drop_last()) * 10 + ((d.last() as u32) - ('0' as u32)) as nat
    }
}

/// The `u64` that `v` writes, as `u64::from_str` reads it: an optional `+`, then
/// decimal digits, at most `u64::MAX`.
pub open spec fn u64_from_text(v: Seq<char>) -> Option<u64> {
    let d = if v.len() > 0 && v[0] == '+' {
        v.drop_first()
    } else {
        v
    };
    if is_digits(d) && digits_value(d) <= u64::MAX {
        Some(digits_value(d) as u64)
    } else {
        None
    }
}

/// The `i64` that `v` writes, as `i64::from_str` reads it: an optional `+` or `-`,
/// then decimal digits, within the range of `i64`.
pub open spec fn i64_from_text(v: Seq<char>) -> Option<i64> {
    if v.len() > 0 && v[0] == '-' {
        let d = v.drop_first();
        if is_digits(d) && digits_value(d) <= 0x8000_0000_0000_0000 {
            Some((0 - digits_value(d)) as i64)
        } else {
            None
        }
    } else {
        let d = if v.len() > 0 && v[0] == '+' {
            v.drop_first()
        } else {
            v
        };
        if is_digits(d) && digits_value(d) <= i64::MAX {
            Some(digits_value(d) as i64)
        } else {
            None
        }
    }
}

/// The `u32` that `v` writes, as clap reads a `u32`: an `i64` within the range of
/// `u32`.
pub open spec fn u32_from_text(v: Seq<char>) -> Option<u32> {
    match i64_from_text(v) {
        Some(n) => if 0 <= n <= u32::MAX {
            Some(n as u32)
        } else {
            None
        },
        None => None,
    }
}

/// Calls `str::parse::<u64>` (`u64::from_str`), whose documented form is an optional
/// `+` followed by decimal digits, with no overflow.
#[verifier::external_body]
fn parse_u64(s: &str) -> (r: Option<u64>)
    ensures
        r == u64_from_text(s@),
{
    s.parse::<u64>().ok()
}

/// Calls `str::parse::<i64>` (`i64::from_str`), whose documented form is an optional
/// `+` or `-` followed by decimal digits, with no overflow.
#[verifier::external_body]
fn parse_i64(s: &str) -> (r: Option<i64>)
    ensures
        r == i64_from_text(s@),
{
    s.parse::<i64>().ok()
}

// ---------------------------------------------------------------- arguments

/// Represents the command-line arguments for the load balancer.
#[derive(Debug)]
pub struct Arguments {
    /// Load balancer IP address.
    pub load_balancer_ip: String,
    /// Health check path.
    pub health_check_path: Option<String>,
    /// Health check interval: the time in seconds between health checks.
    pub health_check_interval: Option<u64>,
    /// Upstream server addresses.
    pub bind: Vec<String>,
    /// Sliding window size in seconds.
    pub window_size_secs: u64,
    /// Maximum number of requests within the sliding window.
    pub max_requests: u32,
}

/// What an `Arguments` holds, as text and numbers.
pub struct ArgumentsView {
    pub load_balancer_ip: Seq<char>,
    pub health_check_path: Option<Seq<char>>,
    pub health_check_interval: Option<u64>,
    pub bind: Seq<Seq<char>>,
    pub window_size_secs: u64,
    pub max_requests: u32,
}

impl View for Arguments {
    type V = ArgumentsView;

    open spec fn view(&self) -> ArgumentsView {
        ArgumentsView {
            load_balancer_ip: self.load_balancer_ip@,
            health_check_path: text_of(self.health_check_path),
            health_check_interval: self.health_check_interval,
            bind: texts(self.bind@),
            window_size_secs: self.window_size_secs,
            max_requests: self.max_requests,
        }
    }
}

/// Why the command line was not read: the message to print, whether it goes to
/// standard error (help goes to standard output), and the status to exit with.
#[derive(Debug)]
pub struct ArgsError {
    pub message: String,
    pub use_stderr: bool,
    pub exit_code: i32,
}

/// The status to exit with when the command line cannot be used.
pub const USAGE_EXIT_CODE: i32 = 2;

/// The one value of an option given once.
pub open spec fn single(v: Option<Seq<Seq<char>>>) -> Option<Seq<char>> {
    match v {
        Some(x) => if x.len() == 1 {
            Some(x[0])
        } else {
            None
        },
        None => None,
    }
}

/// The arguments that the values of the load balancer's options give, in the order
/// `-l`, `-p`, `-i`, `-b`, `-s`, `-r`: `None` unless each is there, the ones given once
/// have one value, and the numbers read.
pub open spec fn arguments_of_values(vals: Seq<Option<Seq<Seq<char>>>>) -> Option<ArgumentsView> {
    if vals.len() != 6 {
        None
    } else {
        match (single(vals[0]), single(vals[1]), single(vals[2]), vals[3], single(vals[4]), single(vals[5])) {
            (Some(ip), Some(path), Some(i), Some(b), Some(s), Some(r)) => match (
                u64_from_text(i),
                u64_from_text(s),
                u32_from_text(r),
            ) {
                (Some(i), Some(s), Some(r)) => Some(
                    ArgumentsView {
                        load_balancer_ip: ip,
                        health_check_path: Some(path),
                        health_check_interval: Some(i),
                        bind: b,
                        window_size_secs: s,
                        max_requests: r,
                    },
                ),
                _ => None,
            },
            _ => None,
        }
    }
}

/// The arguments that clap's reading of `argv` against the load balancer's command
/// line gives.
pub open spec fn clap_arguments(argv: Seq<Seq<char>>) -> Option<ArgumentsView> {
    match clap_reading(declared_command(), argv) {
        Some(vals) => arguments_of_values(vals),
        None => None,
    }
}

/// The one value of an option given once.
fn single_value(v: Option<Vec<String>>) -> (r: Option<String>)
    ensures
        text_of(r) == single(
            match v {
                Some(x) => Some(texts(x@)),
                None => None,
            },
        ),
{
    match v {
        Some(mut x) => if x.len() == 1 {
            x.pop()
        } else {
            None
        },
        None => None,
    }
}

/// A `u32` read as clap reads a `u32`: an `i64` within the range of `u32`.
fn parse_u32(s: &str) -> (r: Option<u32>)
    ensures
        r == u32_from_text(s@),
{
    match parse_i64(s) {
        Some(n) => if 0 <= n && n <= 0xffff_ffff {
            Some(n as u32)
        } else {
            None
        },
        None => None,
    }
}

/// The arguments that the values read for the load balancer's options give, in the
/// order `-l`, `-p`, `-i`, `-b`, `-s`, `-r`.
pub fn arguments_from_values(vals: Vec<Option<Vec<String>>>) -> (r: Option<Arguments>)
    ensures
        match arguments_of_values(raw_texts(vals@)) {
            Some(a) => r matches Some(x) && x@ == a,
            None => r is None,
        },
{
    let ghost rv = raw_texts(vals@);
    if vals.len() != 6 {
        return None;
    }
    let mut vals = vals;
    let r = single_value(vals.pop().unwrap());
    let s = single_value(vals.pop().unwrap());
    let bind = vals.pop().unwrap();
    let i = single_value(vals.pop().unwrap());
    let path = single_value(vals.pop().unwrap());
    let ip = single_value(vals.pop().unwrap());
    match (ip, path, i, bind, s, r) {
        (Some(ip), Some(path), Some(i), Some(bind), Some(s), Some(r)) => {
            match (parse_u64(i.as_str()), parse_u64(s.as_str()), parse_u32(r.as_str())) {
                (Some(i), Some(s), Some(r)) => Some(
                    Arguments {
                        load_balancer_ip: ip,
                        health_check_path: Some(path),
                        health_check_interval: Some(i),
                        bind,
                        window_size_secs: s,
                        max_requests: r,
                    },
                ),
                _ => None,
            }
        },
        _ => None,
    }
}

/// Parses the command line `argv` (whose first string names the program) into the
/// load balancer's arguments; clap reads it. On a refusal, clap's message and exit
/// status come back; `-h` and `--help` come back that way too, with the help text.
pub fn parse_arguments(argv: &Vec<String>) -> (r: Result<Arguments, ArgsError>)
    ensures
        r is Ok <==> clap_arguments(texts(argv@)) is Some,
        r matches Ok(a) ==> clap_arguments(texts(argv@)) == Some(a@),
        r matches Err(e) ==> (clap_reading(declared_command(), texts(argv@)) is Some ==> e.use_stderr
            && e.exit_code == USAGE_EXIT_CODE),
{
    let command = load_balancer_command();
    match read_with_clap(&command, argv) {
        Err((message, use_stderr, exit_code)) => Err(ArgsError { message, use_stderr, exit_code }),
        Ok(vals) => match arguments_from_values(vals) {
            Some(a) => Ok(a),
            None => Err(
                ArgsError {
                    message: String::from_str(
                        "error: invalid value for '-i <HEALTH_CHECK_INTERVAL>', '-s <WINDOW_SIZE_SECS>' or '-r <MAX_REQUESTS>': a whole number in range is expected\n\nFor more information, try '--help'.\n",
                    ),
                    use_stderr: true,
                    exit_code: USAGE_EXIT_CODE,
                },
            ),
        },
    }
}

} // verus!
