//! What the program is asked to do on its command line.

use vstd::prelude::*;
use vstd::string::StringExecFns;

verus! {

/// What the program does with a scene.
#[derive(Debug, PartialEq, Eq, Structural, Clone, Copy)]
pub enum Mode {
    /// Renders the scene to a file.
    ToFile,
    /// Shows the scene in a window.
    Window,
    /// Renders pixels for a coordinator.
    NetClient,
    /// Coordinates the workers that render the scene.
    NetServer,
}

/// Whether two texts are the same.
fn same_text(a: &str, b: &str) -> (r: bool)
    ensures
        r == (a@ == b@),
{
    String::from_str(a) == String::from_str(b)
}

impl Mode {
    /// The name of the mode, as it is written on the command line.
    pub open spec fn spec_name(&self) -> Seq<char> {
        match self {
            Mode::ToFile => "ToFile"@,
            Mode::Window => "Window"@,
            Mode::NetClient => "NetClient"@,
            Mode::NetServer => "NetServer"@,
        }
    }

    /// The name of the mode, as it is written on the command line.
    pub fn name(&self) -> (r: &'static str)
        ensures
            r@ == self.spec_name(),
    {
        match self {
            Mode::ToFile => "ToFile",
            Mode::Window => "Window",
            Mode::NetClient => "NetClient",
            Mode::NetServer => "NetServer",
        }
    }

    /// The modes, in the order in which the usage text names them.
    pub fn all() -> (r: [Mode; 4])
        ensures
            r@ == seq![Mode::ToFile, Mode::Window, Mode::NetClient, Mode::NetServer],
    {
        let r = [Mode::ToFile, Mode::Window, Mode::NetClient, Mode::NetServer];
        assert(r@ =~= seq![Mode::ToFile, Mode::Window, Mode::NetClient, Mode::NetServer]);
        r
    }

    /// The mode of that name, if there is one. The name is to be written as
    /// `name` gives it.
    pub fn from_name(name: &str) -> (r: Option<Mode>)
        ensures
            match r {
                Some(mode) => name@ == mode.spec_name(),
                None => forall|mode: Mode| name@ != #[trigger] mode.spec_name(),
            },
    {
        if same_text(name, "ToFile") {
            Some(Mode::ToFile)
        } else if same_text(name, "Window") {
            Some(Mode::Window)
        } else if same_text(name, "NetClient") {
            Some(Mode::NetClient)
        } else if same_text(name, "NetServer") {
            Some(Mode::NetServer)
        } else {
            None
        }
    }

    /// Whether the mode needs the address of a coordinator.
    pub fn needs_address(&self) -> (r: bool)
        ensures
            r == (*self == Mode::NetClient || *self == Mode::NetServer),
    {
        match self {
            Mode::NetClient | Mode::NetServer => true,
            _ => false,
        }
    }
}

/// The arguments of the program: the mode, the file of the scene, the file
/// to write to, and the address of the coordinator.
#[derive(Debug)]
pub struct Argv {
    pub mode: Mode,
    pub input_file: String,
    pub output_file: Option<String>,
    pub address: Option<String>,
}

impl Argv {
    /// The arguments that a command line gives, the name of the program
    /// first: then the mode, the file of the scene, the file to write to,
    /// and the address.
    ///
    /// There are none where the mode or the file of the scene is missing,
    /// where the mode has no such name, and where a mode that needs an
    /// address is given fewer than four arguments. The address of a mode
    /// that needs none is dropped.
    pub fn parse(argv: &Vec<String>) -> (r: Option<Argv>)
        ensures
            r is Some <==> {
                &&& argv.len() >= 3
                &&& exists|mode: Mode| argv[1]@ == #[trigger] mode.spec_name()
                &&& (argv[1]@ == Mode::NetClient.spec_name() || argv[1]@
                    == Mode::NetServer.spec_name()) ==> argv.len() >= 5
            },
            r matches Some(args) ==> {
                &&& argv[1]@ == args.mode.spec_name()
                &&& args.input_file == argv[2]
                &&& args.output_file == if argv.len() > 3 {
                    Some(argv[3])
                } else {
                    None
                }
                &&& args.address == if args.mode == Mode::NetClient || args.mode
                    == Mode::NetServer {
                    Some(argv[4])
                } else {
                    None
                }
            },
    {
        proof {
            lemma_names_differ();
        }
        if argv.len() <= 1 {
            return None;
        }
        let mode = match Mode::from_name(argv[1].as_str()) {
            Some(mode) => mode,
            None => {
                return None;
            },
        };
        if mode.needs_address() {
            if argv.len() < 5 {
                return None;
            }
            let input_file = argv[2].clone();
            let output_file = Some(argv[3].clone());
            let address = Some(argv[4].clone());
            return Some(Argv { mode, input_file, address, output_file });
        }
        if argv.len() < 3 {
            return None;
        }
        let input_file = argv[2].clone();
        let output_file = if argv.len() > 3 {
            Some(argv[3].clone())
        } else {
            None
        };

        Some(Argv { mode, input_file, output_file, address: None })
    }
}

/// No two modes have one name.
pub proof fn lemma_names_differ()
    ensures
        forall|a: Mode, b: Mode| #[trigger] a.spec_name() == #[trigger] b.spec_name() ==> a == b,
{
    reveal_strlit("ToFile");
    reveal_strlit("Window");
    reveal_strlit("NetClient");
    reveal_strlit("NetServer");
    assert("ToFile"@[0] == 'T');
    assert("Window"@[0] == 'W');
    assert("NetClient"@[3] == 'C');
    assert("NetServer"@[3] == 'S');
    assert("NetClient"@[0] == 'N');
    assert("NetServer"@[0] == 'N');
}

} // verus!
