//! What the command line asks for: the code generation settings and the
//! command to carry out, decided from the parsed arguments.
use vstd::prelude::*;

verus! {

/// Where the database schema comes from.
#[derive(Debug)]
pub enum Action {
    /// A running database at this URL.
    Live { url: String },
    /// Schema files, loaded into a fresh database in a container.
    Schema { schema_files: Vec<String> },
}

/// The command line arguments.
#[derive(Debug)]
pub struct Args {
    /// Use `podman` instead of `docker`.
    pub podman: bool,
    /// Folder containing the queries.
    pub queries_path: String,
    /// Destination file for the generated module.
    pub destination: String,
    pub action: Action,
    /// Generate synchronous code.
    pub sync: bool,
    /// Generate asynchronous code.
    pub asynchronous: bool,
    /// Traits to derive on generated types.
    pub derive: Vec<String>,
    /// Lines to insert at the start of generated modules.
    pub use_lines: Vec<String>,
    pub utoipa_enum_fix: bool,
}

/// Settings of the code generator.
#[derive(Debug)]
pub struct CodegenSettings {
    pub gen_async: bool,
    pub gen_sync: bool,
    pub gen_derive: Vec<String>,
    pub gen_use: Vec<String>,
    pub gen_utoipa_enum_fix: bool,
}

/// The generation to carry out.
#[derive(Debug)]
pub enum Command {
    /// Generate against the database at `url`.
    Live { url: String, queries_path: String, destination: String },
    /// Generate against `schema_files` in a container; clean the container up if
    /// generation fails.
    Managed { queries_path: String, schema_files: Vec<String>, destination: String, podman: bool },
}

/// Settings and command decided from the arguments.
#[derive(Debug)]
pub struct Plan {
    pub settings: CodegenSettings,
    pub command: Command,
}

/// Decides the settings and the command. Asynchronous code is generated when asked
/// for, or when synchronous code is not; synchronous code when asked for.
pub fn run(args: Args) -> (r: Plan)
    ensures
        r.settings.gen_async == (args.asynchronous || !args.sync),
        r.settings.gen_sync == args.sync,
        r.settings.gen_derive == args.derive,
        r.settings.gen_use == args.use_lines,
        r.settings.gen_utoipa_enum_fix == args.utoipa_enum_fix,
        match args.action {
            Action::Live { url } => r.command == (Command::Live {
                url,
                queries_path: args.queries_path,
                destination: args.destination,
            }),
            Action::Schema { schema_files } => r.command == (Command::Managed {
                queries_path: args.queries_path,
                schema_files,
                destination: args.destination,
                podman: args.podman,
            }),
        },
{
    let Args {
        podman,
        queries_path,
        destination,
        action,
        sync,
        asynchronous,
        derive,
        use_lines,
        utoipa_enum_fix,
    } = args;
    let settings = CodegenSettings {
        gen_async: asynchronous || !sync,
        gen_sync: sync,
        gen_derive: derive,
        gen_use: use_lines,
        gen_utoipa_enum_fix: utoipa_enum_fix,
    };
    let command = match action {
        Action::Live { url } => Command::Live { url, queries_path, destination },
        Action::Schema { schema_files } => Command::Managed {
            queries_path,
            schema_files,
            destination,
            podman,
        },
    };
    Plan { settings, command }
}

/// After the command has run: whether to clean up a container, and with which
/// engine (`Some(podman)`). Only a failed managed generation leaves one behind.
pub fn cleanup_after(command: &Command, failed: bool) -> (r: Option<bool>)
    ensures
        r == match command {
            Command::Managed { podman, .. } => if failed {
                Some(*podman)
            } else {
                None
            },
            Command::Live { .. } => None,
        },
{
    match command {
        Command::Managed { podman, .. } => if failed {
            Some(*podman)
        } else {
            None
        },
        Command::Live { .. } => None,
    }
}

} // verus!
