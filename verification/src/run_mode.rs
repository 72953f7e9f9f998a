use vstd::prelude::*;

verus! {

/// The parts of the server that a process runs.
#[derive(PartialEq, Eq, Structural, Clone, Copy, Debug)]
pub enum RunMode {
    Dual,
    Api,
    Background,
}

/// The number that stands for a run mode on the command line and across the
/// library boundary.
pub open spec fn mode_number(mode: RunMode) -> u8 {
    match mode {
        RunMode::Dual => 0,
        RunMode::Api => 1,
        RunMode::Background => 2,
    }
}

/// The run mode a number stands for, if any.
pub open spec fn mode_of_number(n: u8) -> Option<RunMode> {
    if n == 0 {
        Some(RunMode::Dual)
    } else if n == 1 {
        Some(RunMode::Api)
    } else if n == 2 {
        Some(RunMode::Background)
    } else {
        None
    }
}

impl TryFrom<u8> for RunMode {
    type Error = &'static str;

    fn try_from(int_mode: u8) -> (r: Result<Self, Self::Error>) {
        match int_mode {
            0 => Ok(RunMode::Dual),
            1 => Ok(RunMode::Api),
            2 => Ok(RunMode::Background),
            _ => Err("invalid run mode value selected; allowed: 0, 1, 2"),
        }
    }
}

impl vstd::std_specs::convert::TryFromSpecImpl<u8> for RunMode {
    open spec fn obeys_try_from_spec() -> bool {
        true
    }

    open spec fn try_from_spec(v: u8) -> Result<Self, Self::Error> {
        match mode_of_number(v) {
            Some(m) => Ok(m),
            None => Err("invalid run mode value selected; allowed: 0, 1, 2"),
        }
    }
}

impl From<RunMode> for u8 {
    fn from(run_mode: RunMode) -> (n: u8) {
        match run_mode {
            RunMode::Dual => 0,
            RunMode::Api => 1,
            RunMode::Background => 2,
        }
    }
}

impl vstd::std_specs::convert::FromSpecImpl<RunMode> for u8 {
    open spec fn obeys_from_spec() -> bool {
        true
    }

    open spec fn from_spec(v: RunMode) -> u8 {
        mode_number(v)
    }
}

/// Converting a run mode to its number and back gives the same mode.
pub proof fn lemma_run_mode_number_round_trip(mode: RunMode)
    ensures
        mode_of_number(mode_number(mode)) == Some(mode),
{
}

/// Exactly the numbers 0, 1 and 2 stand for a run mode, and converting such a
/// number to its mode and back gives the same number.
pub proof fn lemma_number_run_mode_round_trip(n: u8)
    ensures
        mode_of_number(n) is Some <==> n < 3,
        n < 3 ==> mode_number(mode_of_number(n).unwrap()) == n,
{
}

/// The long-running parts of the server, each started as a named subsystem.
#[derive(PartialEq, Eq, Structural, Clone, Copy, Debug)]
pub enum Subsystem {
    /// Counts down after a shutdown request ("ST").
    ShutdownTimer,
    /// Refreshes the ranking views ("BG").
    Background,
    /// Writes received claims to the database ("CLAIMS").
    ClaimWriter,
    /// Serves HTTP ("API").
    HttpServer,
}

/// The subsystems a run mode starts, in start order.
pub open spec fn spec_subsystems(mode: RunMode) -> Seq<Subsystem> {
    match mode {
        RunMode::Api => seq![Subsystem::ShutdownTimer, Subsystem::ClaimWriter, Subsystem::HttpServer],
        RunMode::Background => seq![Subsystem::ShutdownTimer, Subsystem::Background],
        RunMode::Dual => seq![
            Subsystem::ShutdownTimer,
            Subsystem::Background,
            Subsystem::ClaimWriter,
            Subsystem::HttpServer,
        ],
    }
}

/// The subsystems to start for `mode`, in the order in which they are started:
/// the shutdown timer always comes first.
pub fn subsystems(mode: RunMode) -> (r: Vec<Subsystem>)
    ensures
        r@ == spec_subsystems(mode),
{
    let mut r: Vec<Subsystem> = Vec::new();
    r.push(Subsystem::ShutdownTimer);
    match mode {
        RunMode::Api => {
            r.push(Subsystem::ClaimWriter);
            r.push(Subsystem::HttpServer);
        },
        RunMode::Background => {
            r.push(Subsystem::Background);
        },
        RunMode::Dual => {
            r.push(Subsystem::Background);
            r.push(Subsystem::ClaimWriter);
            r.push(Subsystem::HttpServer);
        },
    }
    r
}

/// Every run mode starts the shutdown timer first and starts no subsystem twice;
/// the HTTP server runs exactly where the claim writer runs, since the server
/// hands its claims to the writer.
pub proof fn lemma_subsystems_well_formed(mode: RunMode)
    ensures
        spec_subsystems(mode)[0] == Subsystem::ShutdownTimer,
        forall|i: int, j: int|
            0 <= i < j < spec_subsystems(mode).len() ==> spec_subsystems(mode)[i]
                != spec_subsystems(mode)[j],
        spec_subsystems(mode).contains(Subsystem::HttpServer) <==> spec_subsystems(
            mode,
        ).contains(Subsystem::ClaimWriter),
{
    let s = spec_subsystems(mode);
    match mode {
        RunMode::Api => {
            assert(s[2] == Subsystem::HttpServer);
            assert(s[1] == Subsystem::ClaimWriter);
        },
        RunMode::Background => {
            assert(forall|x: Subsystem| s.contains(x) ==> x == Subsystem::ShutdownTimer || x == Subsystem::Background);
        },
        RunMode::Dual => {
            assert(s[3] == Subsystem::HttpServer);
            assert(s[2] == Subsystem::ClaimWriter);
        },
    }
}

impl Subsystem {
    /// The name under which the subsystem is started and logged.
    pub fn name(&self) -> (r: &'static str)
        ensures
            r@ == spec_subsystem_name(*self),
    {
        match self {
            Subsystem::ShutdownTimer => "ST",
            Subsystem::Background => "BG",
            Subsystem::ClaimWriter => "CLAIMS",
            Subsystem::HttpServer => "API",
        }
    }
}

/// The name of a subsystem.
pub open spec fn spec_subsystem_name(s: Subsystem) -> Seq<char> {
    match s {
        Subsystem::ShutdownTimer => "ST"@,
        Subsystem::Background => "BG"@,
        Subsystem::ClaimWriter => "CLAIMS"@,
        Subsystem::HttpServer => "API"@,
    }
}

/// The process exit code for the outcome of a run: 0 on success, 1 on error.
pub fn exit_code(succeeded: bool) -> (code: u8)
    ensures
        code == (if succeeded { 0u8 } else { 1u8 }),
{
    if succeeded {
        0
    } else {
        1
    }
}

} // verus!
