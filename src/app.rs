use vstd::prelude::*;
use crate::text::same_text;

verus! {

/// What a run of the calculator does, as its arguments decide.
#[derive(Clone, Copy, Debug, PartialEq, Eq, Structural)]
pub enum Mode {
    /// No argument: read and evaluate lines.
    Calculator,
    /// `-v` or `--version`.
    Version,
    /// `-h` or `--help`.
    Help,
    /// Anything else.
    UnknownArgument,
}

/// The mode that the program arguments `args` (the program's name first) select.
pub open spec fn mode_of(args: Seq<Seq<char>>) -> Mode {
    if args.len() == 1 {
        Mode::Calculator
    } else if args.len() == 2 && (args[1] == "-v"@ || args[1] == "--version"@) {
        Mode::Version
    } else if args.len() == 2 && (args[1] == "-h"@ || args[1] == "--help"@) {
        Mode::Help
    } else {
        Mode::UnknownArgument
    }
}

/// The calculator app: its program arguments, the program's name first.
pub struct App {
    args: Vec<String>,
}

impl View for App {
    type V = Seq<Seq<char>>;

    closed spec fn view(&self) -> Seq<Seq<char>> {
        self.args@.map_values(|a: String| a@)
    }
}

/// Creates an app from the program arguments, which hold at least the
/// program's name.
pub fn from_given_args(args: Vec<String>) -> (r: App)
    requires
        args@.len() > 0,
    ensures
        r@ == args@.map_values(|a: String| a@),
        r@.len() > 0,
{
    App { args }
}

impl App {
    #[verifier::type_invariant]
    spec fn inv(&self) -> bool {
        self.args@.len() > 0
    }

    /// The executable name of the app: the first argument.
    pub fn name(&self) -> (r: &str)
        ensures
            self@.len() > 0,
            r@ == self@[0],
    {
        proof {
            use_type_invariant(self);
        }
        self.args[0].as_str()
    }

    /// The program arguments.
    pub fn args(&self) -> (r: &Vec<String>)
        ensures
            r@.map_values(|a: String| a@) == self@,
    {
        &self.args
    }

    /// What the arguments ask this run to do.
    pub fn mode(&self) -> (r: Mode)
        ensures
            r == mode_of(self@),
    {
        let n = self.args.len();
        if n == 1 {
            return Mode::Calculator;
        }
        if n != 2 {
            return Mode::UnknownArgument;
        }
        let a = self.args[1].as_str();
        assert(a@ == self@[1]);
        if same_text(a, "-v") || same_text(a, "--version") {
            Mode::Version
        } else if same_text(a, "-h") || same_text(a, "--help") {
            Mode::Help
        } else {
            Mode::UnknownArgument
        }
    }
}

} // verus!
