//! Command-line routing for API methods: a tree of subcommands whose leaves
//! name a method and its positional parameters, and the classification of
//! one raw argument as positional, switch, or switch with value.

use vstd::prelude::*;
use crate::bytes::{has_byte, split_on, find_byte_from, sub_vec, slice_starts_with,
    lemma_split_first, lemma_split_on_whole};

verus! {

/// One declared parameter of an API method.
pub struct Parameter {
    /// The parameter's name.
    pub name: Vec<u8>,
}

/// A plain description of an API method: its name and parameters.
pub struct ApiMethodInfo {
    /// The method's name.
    pub name: Vec<u8>,
    /// Its declared parameters.
    pub parameters: Vec<Parameter>,
}

/// A reference to an API method together with the ordered positional
/// parameters the command line may fill.
pub struct Method {
    /// The method.
    pub method: ApiMethodInfo,
    /// Names of the positional parameters, in order.
    pub positional_args: Vec<Vec<u8>>,
}

/// A node in the command router: a method, or subcommands.
pub enum Command {
    Method(Method),
    SubCommands(SubCommands),
}

/// A set of named subcommands.
pub struct SubCommands {
    /// The subcommands, each under its name; names are unique.
    pub commands: Vec<(Vec<u8>, Command)>,
}

/// A root node: the application name and its (single) command tree.
pub struct App {
    /// The application's name.
    pub name: Vec<u8>,
    /// The command tree, once one is registered.
    pub command: Option<Command>,
}

pub open spec fn has_subcommand(cmds: Seq<(Vec<u8>, Command)>, name: Seq<u8>) -> bool {
    exists|i: int| 0 <= i < cmds.len() && (#[trigger] cmds[i]).0@ == name
}

impl Method {
    /// A new reference to an API method.
    pub fn new(method: ApiMethodInfo, positional_args: Vec<Vec<u8>>) -> (r: Method)
        ensures
            r.method == method,
            r.positional_args == positional_args,
    {
        Method { method, positional_args }
    }

    /// The index of the parameter of the given name, first declaration
    /// winning; `None` when the method has no such parameter.
    pub fn find_parameter(&self, name: &[u8]) -> (r: Option<usize>)
        ensures
            match r {
                Some(i) => i < self.method.parameters@.len()
                    && self.method.parameters@[i as int].name@ == name@ && forall|k: int|
                    0 <= k < i ==> (#[trigger] self.method.parameters@[k]).name@ != name@,
                None => forall|k: int|
                    0 <= k < self.method.parameters@.len() ==> (
                    #[trigger] self.method.parameters@[k]).name@ != name@,
            },
    {
        let mut i: usize = 0;
        while i < self.method.parameters.len()
            invariant
                i <= self.method.parameters@.len(),
                forall|k: int|
                    0 <= k < i ==> (#[trigger] self.method.parameters@[k]).name@ != name@,
            decreases self.method.parameters@.len() - i,
        {
            if crate::bytes::bytes_eq(self.method.parameters[i].name.as_slice(), name) {
                return Some(i);
            }
            i += 1;
        }
        None
    }
}

impl Command {
    /// A command entry pointing at an API method.
    pub fn method(method: ApiMethodInfo, positional_args: Vec<Vec<u8>>) -> (r: Command)
        ensures
            r == Command::Method(Method { method, positional_args }),
    {
        Command::Method(Method::new(method, positional_args))
    }

    /// A new empty subcommand entry.
    pub fn new() -> (r: Command)
        ensures
            r matches Command::SubCommands(sc) && sc.commands@.len() == 0,
    {
        Command::SubCommands(SubCommands::new())
    }
}

impl SubCommands {
    /// An empty set of subcommands.
    pub fn new() -> (r: SubCommands)
        ensures
            r.commands@.len() == 0,
    {
        SubCommands { commands: Vec::new() }
    }

    /// Whether a subcommand of this name exists.
    pub fn contains(&self, name: &[u8]) -> (r: bool)
        ensures
            r == has_subcommand(self.commands@, name@),
    {
        let mut i: usize = 0;
        while i < self.commands.len()
            invariant
                i <= self.commands@.len(),
                forall|k: int| 0 <= k < i ==> (#[trigger] self.commands@[k]).0@ != name@,
            decreases self.commands@.len() - i,
        {
            if crate::bytes::bytes_eq(self.commands[i].0.as_slice(), name) {
                return true;
            }
            i += 1;
        }
        false
    }

    /// Add a subcommand; the name must not be taken yet.
    pub fn add_subcommand(&mut self, name: Vec<u8>, command: Command)
        requires
            !has_subcommand(old(self).commands@, name@),
        ensures
            final(self).commands@ == old(self).commands@.push((name, command)),
    {
        self.commands.push((name, command));
    }

    /// Builder form of [`Self::add_subcommand`].
    pub fn subcommand(self, name: Vec<u8>, command: Command) -> (r: SubCommands)
        requires
            !has_subcommand(self.commands@, name@),
        ensures
            r.commands@ == self.commands@.push((name, command)),
    {
        let mut s = self;
        s.add_subcommand(name, command);
        s
    }
}

impl App {
    /// A new empty application root.
    pub fn new(name: Vec<u8>) -> (r: App)
        ensures
            r.name == name,
            r.command is None,
    {
        App { name, command: None }
    }

    /// Connect this root directly to a single API method; only legal while
    /// no command is registered yet.
    pub fn method(self, method: Method) -> (r: App)
        requires
            self.command is None,
        ensures
            r.name == self.name,
            r.command == Some(Command::Method(method)),
    {
        let mut s = self;
        s.command = Some(Command::Method(method));
        s
    }

    /// Add a subcommand, creating the subcommand table on first use; only
    /// legal while the root is empty or already a subcommand table without
    /// that name.
    pub fn subcommand(self, name: Vec<u8>, subcommand: Command) -> (r: App)
        requires
            match self.command {
                None => true,
                Some(Command::SubCommands(sc)) => !has_subcommand(sc.commands@, name@),
                Some(Command::Method(_)) => false,
            },
        ensures
            r.name == self.name,
            match self.command {
                None => r.command matches Some(Command::SubCommands(sc)) && sc.commands@.len() == 1
                    && sc.commands@[0] == (name, subcommand),
                Some(Command::SubCommands(sc)) => r.command matches Some(
                    Command::SubCommands(sc2),
                ) && sc2.commands@ == sc.commands@.push((name, subcommand)),
                Some(Command::Method(_)) => false,
            },
    {
        let App { name: app_name, command } = self;
        match command {
            None => {
                let mut sc = SubCommands::new();
                sc.add_subcommand(name, subcommand);
                App { name: app_name, command: Some(Command::SubCommands(sc)) }
            },
            Some(Command::SubCommands(mut sc)) => {
                sc.add_subcommand(name, subcommand);
                App { name: app_name, command: Some(Command::SubCommands(sc)) }
            },
            Some(Command::Method(m)) => {
                proof {
                    assert(false);
                }
                App { name: app_name, command: Some(Command::Method(m)) }
            },
        }
    }
}

/// One raw command-line argument, classified.
#[derive(Debug, PartialEq, Eq)]
pub enum Arg {
    /// An ordinary value.
    Positional(Vec<u8>),
    /// `--name`.
    Opt(Vec<u8>),
    /// `--name=value`.
    OptArg(Vec<u8>, Vec<u8>),
}

#[verifier::ext_equal]
pub ghost enum ArgView {
    Positional(Seq<u8>),
    Opt(Seq<u8>),
    OptArg(Seq<u8>, Seq<u8>),
}

impl View for Arg {
    type V = ArgView;

    open spec fn view(&self) -> ArgView {
        match self {
            Arg::Positional(v) => ArgView::Positional(v@),
            Arg::Opt(v) => ArgView::Opt(v@),
            Arg::OptArg(n, v) => ArgView::OptArg(n@, v@),
        }
    }
}

pub open spec fn dashes_b() -> Seq<u8> {
    seq![45u8, 45u8]
}

/// How one argument is read: everything after a leading `--` is a switch,
/// split at the first `=` into name and value when one occurs; anything
/// else is positional.
pub open spec fn classify_arg(s: Seq<u8>) -> ArgView {
    if crate::bytes::starts_with(s, dashes_b()) {
        let rest = s.skip(2);
        if has_byte(rest, 61) {
            let name = split_on(rest, 61)[0];
            ArgView::OptArg(name, rest.skip(name.len() as int + 1))
        } else {
            ArgView::Opt(rest)
        }
    } else {
        ArgView::Positional(s)
    }
}

/// Classify the next raw argument.
pub fn next_arg(arg: &[u8]) -> (r: Arg)
    ensures
        r@ == classify_arg(arg@),
{
    let dashes: [u8; 2] = [45, 45];
    proof {
        assert(dashes@ =~= dashes_b());
    }
    if slice_starts_with(arg, dashes.as_slice()) {
        let rest = sub_vec(arg, 2, arg.len());
        proof {
            assert(rest@ =~= arg@.skip(2));
        }
        match find_byte_from(rest.as_slice(), 61, 0) {
            Some(i) => {
                let name = sub_vec(rest.as_slice(), 0, i);
                let value = sub_vec(rest.as_slice(), i + 1, rest.len());
                proof {
                    lemma_split_first(rest@, 61);
                    let p0 = split_on(rest@, 61)[0];
                    assert(p0 =~= rest@.subrange(0, i as int)) by {
                        assert(rest@ =~= p0 + seq![61u8] + rest@.skip(p0.len() as int + 1));
                        assert forall|k: int| 0 <= k < p0.len() implies rest@[k] == p0[k] by {}
                        assert(p0.len() <= i) by {
                            if p0.len() > i {
                                assert(p0[i as int] == rest@[i as int]);
                            }
                        }
                        assert(rest@[p0.len() as int] == 61);
                        assert(p0.len() >= i);
                        assert(p0 =~= rest@.subrange(0, p0.len() as int));
                    }
                    assert(name@ =~= p0);
                    assert(value@ =~= rest@.skip(p0.len() as int + 1));
                }
                Arg::OptArg(name, value)
            },
            None => {
                proof {
                    assert(!has_byte(rest@, 61));
                }
                Arg::Opt(rest)
            },
        }
    } else {
        let v = sub_vec(arg, 0, arg.len());
        proof {
            assert(v@ =~= arg@);
        }
        Arg::Positional(v)
    }
}

} // verus!
