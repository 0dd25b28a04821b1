//! The command line: the command that the arguments name and the options
//! that they set.

pub mod args;

use vstd::prelude::*;
use vstd::string::StringExecFns;
use crate::args::args::{long_of, short_of, RawArgs, ShortFlags};
use crate::io_control::{IOControl, LogLevel};
use crate::lexical_analysis::token_views;

verus! {

/// What to do.
pub enum Command {
    /// Index the corpus at this path.
    Index(String),
    /// Serve queries.
    Serve,
}

/// The mathematical value of a command.
pub enum Order {
    Index(Seq<char>),
    Serve,
}

impl View for Command {
    type V = Order;

    open spec fn view(&self) -> Order {
        match self {
            Command::Index(path) => Order::Index(path@),
            Command::Serve => Order::Serve,
        }
    }
}

/// What the options say.
pub struct Options {
    /// Whether the walk descends into directories.
    pub deep: bool,
    /// The address to serve on, where one was given.
    pub address: Option<String>,
    /// The path of the snapshot, where one was given.
    pub json: Option<String>,
    /// Whether the run reports each file.
    pub progress: bool,
}

/// The mathematical value of the options.
pub struct Settings {
    pub deep: bool,
    pub address: Option<Seq<char>>,
    pub json: Option<Seq<char>>,
    pub progress: bool,
}

/// The characters of `text`, where there is one.
pub open spec fn text_view(text: Option<String>) -> Option<Seq<char>> {
    match text {
        Some(text) => Some(text@),
        None => None,
    }
}

impl View for Options {
    type V = Settings;

    open spec fn view(&self) -> Settings {
        Settings {
            deep: self.deep,
            address: text_view(self.address),
            json: text_view(self.json),
            progress: self.progress,
        }
    }
}

/// Why the arguments were not taken: the user asked for help, or something
/// is wrong with them.
pub enum Usage {
    /// The command `help`, the option `--help` or the flag `-h`.
    Help,
    /// No command.
    CommandNotFound,
    /// A command that is none.
    InvalidCommand(String),
    /// `index` without a path.
    ArgumentNotFound,
    /// `index` with an option in place of the path.
    InvalidArgument(String),
    /// A switch with a value that is neither `true` nor `false`.
    InvalidValue { value: String, option: String },
    /// An option that needs a value, without one.
    MissingValue(String),
    /// An option that is none.
    InvalidOption(String),
}

/// The mathematical value of a `Usage`.
pub enum Complaint {
    Help,
    CommandNotFound,
    InvalidCommand(Seq<char>),
    ArgumentNotFound,
    InvalidArgument(Seq<char>),
    InvalidValue { value: Seq<char>, option: Seq<char> },
    MissingValue(Seq<char>),
    InvalidOption(Seq<char>),
}

impl View for Usage {
    type V = Complaint;

    open spec fn view(&self) -> Complaint {
        match self {
            Usage::Help => Complaint::Help,
            Usage::CommandNotFound => Complaint::CommandNotFound,
            Usage::InvalidCommand(command) => Complaint::InvalidCommand(command@),
            Usage::ArgumentNotFound => Complaint::ArgumentNotFound,
            Usage::InvalidArgument(argument) => Complaint::InvalidArgument(argument@),
            Usage::InvalidValue { value, option } => Complaint::InvalidValue { value: value@, option: option@ },
            Usage::MissingValue(option) => Complaint::MissingValue(option@),
            Usage::InvalidOption(option) => Complaint::InvalidOption(option@),
        }
    }
}

/// The options before any argument is read.
pub open spec fn default_settings() -> Settings {
    Settings { deep: false, address: None, json: None, progress: false }
}

/// The settings after the short flag `flag`: `d` and `p` set their
/// switches, `h` asks for help, and any other flag changes nothing.
pub open spec fn with_flag(settings: Settings, flag: char) -> Result<Settings, Complaint> {
    if flag == 'h' {
        Err(Complaint::Help)
    } else if flag == 'd' {
        Ok(Settings { deep: true, ..settings })
    } else if flag == 'p' {
        Ok(Settings { progress: true, ..settings })
    } else {
        Ok(settings)
    }
}

/// The settings after the short flags `flags`, taken in order up to the
/// first that asks for help.
pub open spec fn with_flags(settings: Settings, flags: Seq<char>) -> Result<Settings, Complaint>
    decreases flags.len(),
{
    if flags.len() == 0 {
        Ok(settings)
    } else {
        match with_flag(settings, flags[0]) {
            Ok(next) => with_flags(next, flags.drop_first()),
            Err(complaint) => Err(complaint),
        }
    }
}

/// What the switch `option` is set to by `value`: on where no value is
/// given.
pub open spec fn switched(value: Option<Seq<char>>, option: Seq<char>) -> Result<bool, Complaint> {
    match value {
        None => Ok(true),
        Some(value) => if value == "true"@ {
            Ok(true)
        } else if value == "false"@ {
            Ok(false)
        } else {
            Err(Complaint::InvalidValue { value, option })
        },
    }
}

/// The settings after the long option `name` with the value `value`.
pub open spec fn with_long(settings: Settings, name: Seq<char>, value: Option<Seq<char>>) -> Result<
    Settings,
    Complaint,
> {
    if name == "help"@ {
        Err(Complaint::Help)
    } else if name == "deep"@ {
        match switched(value, name) {
            Ok(deep) => Ok(Settings { deep, ..settings }),
            Err(complaint) => Err(complaint),
        }
    } else if name == "progress"@ {
        match switched(value, name) {
            Ok(progress) => Ok(Settings { progress, ..settings }),
            Err(complaint) => Err(complaint),
        }
    } else if name == "json"@ {
        match value {
            Some(path) => Ok(Settings { json: Some(path), ..settings }),
            None => Err(Complaint::MissingValue(name)),
        }
    } else if name == "address"@ {
        match value {
            Some(address) => Ok(Settings { address: Some(address), ..settings }),
            None => Err(Complaint::MissingValue(name)),
        }
    } else {
        Err(Complaint::InvalidOption(name))
    }
}

/// The settings after the argument `argument`: a long option, a run of
/// short flags, or something that sets nothing.
pub open spec fn with_argument(settings: Settings, argument: Seq<char>) -> Result<Settings, Complaint> {
    if argument == "--"@ || argument == "-"@ {
        Ok(settings)
    } else {
        match long_of(argument) {
            Some((name, value)) => with_long(settings, name, value),
            None => match short_of(argument) {
                Some(flags) => with_flags(settings, flags),
                None => Ok(settings),
            },
        }
    }
}

/// The settings after the arguments of `arguments` from `from` on, taken in
/// order up to the first that is not accepted.
pub open spec fn with_arguments(settings: Settings, arguments: Seq<Seq<char>>, from: int) -> Result<
    Settings,
    Complaint,
>
    decreases arguments.len() - from,
{
    if from < 0 || from >= arguments.len() {
        Ok(settings)
    } else {
        match with_argument(settings, arguments[from]) {
            Ok(next) => with_arguments(next, arguments, from + 1),
            Err(complaint) => Err(complaint),
        }
    }
}

/// The command that `arguments` name, and how many arguments it takes up,
/// the program's name counted in.
pub open spec fn command_of(arguments: Seq<Seq<char>>) -> Result<(Order, int), Complaint> {
    if arguments.len() < 2 {
        Err(Complaint::CommandNotFound)
    } else if arguments[1] == "index"@ {
        if arguments.len() < 3 {
            Err(Complaint::ArgumentNotFound)
        } else if arguments[2].len() > 0 && arguments[2][0] == '-' {
            Err(Complaint::InvalidArgument(arguments[2]))
        } else {
            Ok((Order::Index(arguments[2]), 3))
        }
    } else if arguments[1] == "serve"@ {
        Ok((Order::Serve, 2))
    } else if arguments[1] == "help"@ {
        Err(Complaint::Help)
    } else {
        Err(Complaint::InvalidCommand(arguments[1]))
    }
}

/// What the command line `arguments` asks for, read with the options
/// `settings` to begin with: the command and the options, or the first
/// reason not to take the arguments.
pub open spec fn read_arguments(settings: Settings, arguments: Seq<Seq<char>>) -> Result<
    (Settings, Order),
    Complaint,
> {
    match command_of(arguments) {
        Err(complaint) => Err(complaint),
        Ok((order, used)) => match with_arguments(settings, arguments, used) {
            Ok(settings) => Ok((settings, order)),
            Err(complaint) => Err(complaint),
        },
    }
}

/// The address that queries are served on where the options name none.
pub open spec fn default_address() -> Seq<char> {
    "127.0.0.1:1919"@
}

/// The path of the snapshot where the options name none.
pub open spec fn default_json_path() -> Seq<char> {
    "./index.json"@
}

/// The address that `settings` name, or else the default.
pub open spec fn address_of(settings: Settings) -> Seq<char> {
    match settings.address {
        Some(address) => address,
        None => default_address(),
    }
}

/// The path of the snapshot that `settings` name, or else the default.
pub open spec fn json_path_of(settings: Settings) -> Seq<char> {
    match settings.json {
        Some(path) => path,
        None => default_json_path(),
    }
}

impl Options {
    /// The address to serve on.
    pub fn ip_address(&self) -> (address: &str)
        ensures
            address@ == address_of(self@),
    {
        match &self.address {
            Some(address) => address.as_str(),
            None => "127.0.0.1:1919",
        }
    }

    /// The path of the snapshot.
    pub fn json_path(&self) -> (path: &str)
        ensures
            path@ == json_path_of(self@),
    {
        match &self.json {
            Some(path) => path.as_str(),
            None => "./index.json",
        }
    }
}

/// Whether two strings hold the same characters.
fn same_text(a: &str, b: &str) -> (same: bool)
    ensures
        same == (a@ == b@),
{
    a.to_owned() == b.to_owned()
}

/// What the switch `option` is set to by `value`.
fn switch(value: Option<String>, option: String) -> (setting: Result<bool, Usage>)
    ensures
        match switched(text_view(value), option@) {
            Ok(on) => setting == Ok::<bool, Usage>(on),
            Err(complaint) => setting is Err && setting->Err_0@ == complaint,
        },
{
    match value {
        None => Ok(true),
        Some(value) => {
            if same_text(value.as_str(), "true") {
                Ok(true)
            } else if same_text(value.as_str(), "false") {
                Ok(false)
            } else {
                Err(Usage::InvalidValue { value, option })
            }
        },
    }
}

/// The command line of the program: its options and its command.
pub struct Args {
    pub options: Options,
    pub command: Option<Command>,
}

/// What a run of the program does.
pub enum Job {
    /// Index a corpus with these settings.
    Index(IOControl),
    /// Serve queries on `address` from the snapshot at `json_path`.
    Serve { address: String, json_path: String },
}

impl Args {
    /// Reads the command line `arguments`, the program's name first.
    pub fn new(arguments: &Vec<String>) -> (outcome: Result<Args, Usage>)
        ensures
            match read_arguments(default_settings(), token_views(arguments@)) {
                Ok((settings, order)) => outcome is Ok && outcome->Ok_0.options@ == settings
                    && outcome->Ok_0.command is Some && outcome->Ok_0.command->0@ == order,
                Err(complaint) => outcome is Err && outcome->Err_0@ == complaint,
            },
    {
        let options = Options { deep: false, address: None, json: None, progress: false };
        let mut args = Args { options, command: None };
        match args.implementation(arguments) {
            Ok(()) => Ok(args),
            Err(usage) => Err(usage),
        }
    }

    /// Reads the command line `arguments`, the program's name first, into
    /// the command and the options.
    pub fn implementation(&mut self, arguments: &Vec<String>) -> (outcome: Result<(), Usage>)
        ensures
            match read_arguments(old(self).options@, token_views(arguments@)) {
                Ok((settings, order)) => outcome is Ok && final(self).options@ == settings
                    && final(self).command is Some && final(self).command->0@ == order,
                Err(complaint) => outcome is Err && outcome->Err_0@ == complaint,
            },
    {
        let ghost all = token_views(arguments@);
        let ghost start = self.options@;
        if arguments.len() < 2 {
            return Err(Usage::CommandNotFound);
        }
        assert(all[1] == arguments@[1]@);
        let main_command = arguments[1].as_str();
        let used: usize = if same_text(main_command, "index") {
            if arguments.len() < 3 {
                return Err(Usage::ArgumentNotFound);
            }
            assert(all[2] == arguments@[2]@);
            let path = arguments[2].as_str();
            if path.unicode_len() > 0 && path.get_char(0) == '-' {
                return Err(Usage::InvalidArgument(arguments[2].clone()));
            }
            self.command = Some(Command::Index(arguments[2].clone()));
            3
        } else if same_text(main_command, "serve") {
            self.command = Some(Command::Serve);
            2
        } else if same_text(main_command, "help") {
            return Err(Usage::Help);
        } else {
            return Err(Usage::InvalidCommand(arguments[1].clone()));
        };
        let ghost order = self.command->0@;

        let mut items: Vec<String> = Vec::new();
        let mut i: usize = 0;
        while i < arguments.len()
            invariant
                i <= arguments@.len(),
                items@ == arguments@.take(i as int),
            decreases arguments@.len() - i,
        {
            items.push(arguments[i].clone());
            assert(items@ =~= arguments@.take(i + 1));
            i += 1;
        }
        assert(items@ =~= arguments@);
        let raw = RawArgs::new(items);
        let mut cursor = raw.cursor();
        cursor.cursor = used;
        loop
            invariant_except_break
                cursor.cursor <= all.len(),
            invariant
                all == token_views(arguments@),
                start == old(self).options@,
                command_of(all) == Ok::<(Order, int), Complaint>((order, used as int)),
                used <= cursor.cursor,
                raw@ == all,
                self.command is Some,
                self.command->0@ == order,
                with_arguments(start, all, used as int) == with_arguments(
                    self.options@,
                    all,
                    cursor.cursor as int,
                ),
            ensures
                with_arguments(start, all, used as int) == Ok::<Settings, Complaint>(self.options@),
                self.command is Some,
                self.command->0@ == order,
            decreases all.len() - cursor.cursor,
        {
            let ghost at = cursor.cursor as int;
            let ghost before = self.options@;
            proof {
                vstd::std_specs::vec::axiom_spec_len(arguments);
            }
            let arg = match raw.next(&mut cursor) {
                Some(arg) => arg,
                None => {
                    break ;
                },
            };
            assert(arg@ == all[at]);
            assert(with_arguments(before, all, at) == match with_argument(before, all[at]) {
                Ok(next) => with_arguments(next, all, at + 1),
                Err(complaint) => Err(complaint),
            });
            if arg.is_escape() || arg.is_stdio() {
                continue ;
            }
            match arg.to_long() {
                Some((name, value)) => {
                    assert(long_of(arg@) == Some((name@, text_view(value))));
                    match self.long_option(name, value) {
                        Ok(()) => {},
                        Err(usage) => {
                            return Err(usage);
                        },
                    }
                },
                None => match arg.to_short() {
                    Some(mut shorts) => {
                        match self.short_flags(&mut shorts) {
                            Ok(()) => {},
                            Err(usage) => {
                                return Err(usage);
                            },
                        }
                    },
                    None => {},
                },
            }
        }
        Ok(())
    }

    /// Applies the long option `name` with the value `value`.
    fn long_option(&mut self, name: String, value: Option<String>) -> (outcome: Result<(), Usage>)
        ensures
            final(self).command == old(self).command,
            match with_long(old(self).options@, name@, text_view(value)) {
                Ok(settings) => outcome is Ok && final(self).options@ == settings,
                Err(complaint) => outcome is Err && outcome->Err_0@ == complaint,
            },
    {
        if same_text(name.as_str(), "help") {
            Err(Usage::Help)
        } else if same_text(name.as_str(), "deep") {
            match switch(value, name) {
                Ok(deep) => {
                    self.options.deep = deep;
                    Ok(())
                },
                Err(usage) => Err(usage),
            }
        } else if same_text(name.as_str(), "progress") {
            match switch(value, name) {
                Ok(progress) => {
                    self.options.progress = progress;
                    Ok(())
                },
                Err(usage) => Err(usage),
            }
        } else if same_text(name.as_str(), "json") {
            match value {
                Some(path) => {
                    self.options.json = Some(path);
                    Ok(())
                },
                None => Err(Usage::MissingValue(name)),
            }
        } else if same_text(name.as_str(), "address") {
            match value {
                Some(address) => {
                    self.options.address = Some(address);
                    Ok(())
                },
                None => Err(Usage::MissingValue(name)),
            }
        } else {
            Err(Usage::InvalidOption(name))
        }
    }

    /// Applies the short flags that are left in `shorts`.
    fn short_flags(&mut self, shorts: &mut ShortFlags) -> (outcome: Result<(), Usage>)
        ensures
            final(self).command == old(self).command,
            match with_flags(old(self).options@, old(shorts)@) {
                Ok(settings) => outcome is Ok && final(self).options@ == settings,
                Err(complaint) => outcome is Err && outcome->Err_0@ == complaint,
            },
    {
        loop
            invariant
                self.command == old(self).command,
                with_flags(old(self).options@, old(shorts)@) == with_flags(self.options@, shorts@),
            ensures
                self.command == old(self).command,
                with_flags(old(self).options@, old(shorts)@) == Ok::<Settings, Complaint>(self.options@),
            decreases shorts@.len(),
        {
            match shorts.next_flag() {
                None => {
                    break ;
                },
                Some(flag) => {
                    if flag == 'h' {
                        return Err(Usage::Help);
                    } else if flag == 'd' {
                        self.options.deep = true;
                    } else if flag == 'p' {
                        self.options.progress = true;
                    }
                },
            }
        }
        Ok(())
    }

    /// What the run does: nothing where no command was read.
    pub fn implication(self) -> (job: Option<Job>)
        ensures
            match self.command {
                None => job is None,
                Some(Command::Index(path)) => job matches Some(Job::Index(control)) && control.path == path
                    && control.json_path@ == json_path_of(self.options@) && control.deep == self.options.deep
                    && control.progress == self.options.progress,
                Some(Command::Serve) => job matches Some(Job::Serve { address, json_path }) && address@
                    == address_of(self.options@) && json_path@ == json_path_of(self.options@),
            },
    {
        let Args { options, command } = self;
        match command {
            None => None,
            Some(Command::Index(path)) => Some(
                Job::Index(IOControl::new(path, options.json_path(), options.deep, options.progress)),
            ),
            Some(Command::Serve) => Some(
                Job::Serve {
                    address: String::from_str(options.ip_address()),
                    json_path: String::from_str(options.json_path()),
                },
            ),
        }
    }
}

/// The text that tells how the program is used.
pub open spec fn usage_text() -> Seq<char> {
    "
    Local Search Engine (Lsert)

    USAGE:
        <program> <command> [arguments] [options]

    command:  
        index
        serve
        help

    valid:
        index [file | folder] --json=<json_file.json>
        serve --json=<json_file>

    options:
        --json=<json_file>: JSON file to parse and get the data
        --address=<valid_ip_address>: Give an address to expose
        --deep=[true | false] | --deep | -d: Recursive the folder and try to get all data
        --progress=[true | false] | --progress | -p: Show the process
        "@
}

/// What the program says before it gives up: how it is used, and that it
/// stops.
pub open spec fn man_page_text() -> Seq<char> {
    usage_text() + "\n"@ + "\n\x1B[1m"@ + "Exiting the Program..."@ + "\x1B[0m\n"@ + "\n"@
}

/// What the program says of an error before it gives up: the error, unless
/// its message is empty, and then what `man_page_text` holds.
pub open spec fn error_text(message: Seq<char>) -> Seq<char> {
    if message.len() == 0 {
        man_page_text()
    } else {
        "\x1B[41m\x1B[1mERROR:\x1B[0m "@ + message + "\n"@ + man_page_text()
    }
}

/// What the program says to the user about the command line.
pub struct ArgLogging;

impl ArgLogging {
    /// What to say of the error `error_msg` before giving up.
    pub fn error_log(error_msg: String) -> (text: String)
        ensures
            text@ == error_text(error_msg@),
    {
        if !error_msg.as_str().is_empty() {
            LogLevel::ERROR(error_msg).show().concat("\n").concat(Self::man_page().as_str())
        } else {
            Self::man_page()
        }
    }

    /// What to say before giving up.
    pub fn man_page() -> (text: String)
        ensures
            text@ == man_page_text(),
    {
        let usage = "
    Local Search Engine (Lsert)

    USAGE:
        <program> <command> [arguments] [options]

    command:  
        index
        serve
        help

    valid:
        index [file | folder] --json=<json_file.json>
        serve --json=<json_file>

    options:
        --json=<json_file>: JSON file to parse and get the data
        --address=<valid_ip_address>: Give an address to expose
        --deep=[true | false] | --deep | -d: Recursive the folder and try to get all data
        --progress=[true | false] | --progress | -p: Show the process
        ";
        let signal = LogLevel::SIGNAL(String::from_str("Exiting the Program..."));
        String::from_str(usage).concat("\n").concat(signal.show().as_str()).concat("\n")
    }
}

} // verus!
