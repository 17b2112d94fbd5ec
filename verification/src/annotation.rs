//! Signs: per-line markers with a severity, and the commands that place or
//! remove them.

use vstd::prelude::*;

verus! {

/// Identifier of the sign on line 1 with severity `Error`.
pub const SIGN_ID_BASE: u64 = 75000;

/// Number of identifiers reserved per line, one for each severity.
pub const SIGN_IDS_PER_LINE: u64 = 4;

/// Classification of a sign.
#[derive(Clone, Copy, Debug, PartialEq, Eq, Structural)]
pub enum DiagnosticSeverity {
    Error,
    Warning,
    Information,
    Hint,
}

impl DiagnosticSeverity {
    /// The protocol's number for the severity: 1 for `Error` up to 4 for `Hint`.
    pub open spec fn spec_rank(self) -> u8 {
        match self {
            DiagnosticSeverity::Error => 1u8,
            DiagnosticSeverity::Warning => 2u8,
            DiagnosticSeverity::Information => 3u8,
            DiagnosticSeverity::Hint => 4u8,
        }
    }

    /// The protocol's number for the severity.
    pub fn rank(&self) -> (r: u8)
        ensures
            r == self.spec_rank(),
            1 <= r <= 4,
    {
        match self {
            DiagnosticSeverity::Error => 1u8,
            DiagnosticSeverity::Warning => 2u8,
            DiagnosticSeverity::Information => 3u8,
            DiagnosticSeverity::Hint => 4u8,
        }
    }

    /// The severity's name as the editor's sign definitions spell it.
    pub open spec fn spec_name(self) -> Seq<char> {
        match self {
            DiagnosticSeverity::Error => "Error"@,
            DiagnosticSeverity::Warning => "Warning"@,
            DiagnosticSeverity::Information => "Information"@,
            DiagnosticSeverity::Hint => "Hint"@,
        }
    }

    /// The severity's name as the editor's sign definitions spell it.
    pub fn name(&self) -> (name: &'static str)
        ensures
            name@ == self.spec_name(),
    {
        match self {
            DiagnosticSeverity::Error => "Error",
            DiagnosticSeverity::Warning => "Warning",
            DiagnosticSeverity::Information => "Information",
            DiagnosticSeverity::Hint => "Hint",
        }
    }
}

/// A marker on one line of a buffer. `id` is a handle for the editor; two signs
/// mark the same thing exactly when `line` and `severity` agree.
#[derive(Clone, Copy, Debug)]
pub struct Sign {
    pub id: u64,
    pub line: u64,
    pub severity: DiagnosticSeverity,
}

impl Sign {
    /// The identifier that `new` gives to the sign on `line` with `severity`.
    pub open spec fn spec_id(line: u64, severity: DiagnosticSeverity) -> int {
        SIGN_ID_BASE + (line - 1) * SIGN_IDS_PER_LINE + severity.spec_rank() - 1
    }

    /// The pair by which signs are compared: line and severity number.
    pub open spec fn key(self) -> (u64, u8) {
        (self.line, self.severity.spec_rank())
    }

    /// A sign on `line` (counted from 1) whose identifier is derived from the
    /// line and the severity, so that distinct markers get distinct handles.
    pub fn new(line: u64, severity: DiagnosticSeverity) -> (s: Sign)
        requires
            1 <= line,
            Self::spec_id(line, severity) <= u64::MAX,
        ensures
            s.line == line,
            s.severity == severity,
            s.id == Self::spec_id(line, severity),
    {
        let rank: u64 = match severity {
            DiagnosticSeverity::Error => 1,
            DiagnosticSeverity::Warning => 2,
            DiagnosticSeverity::Information => 3,
            DiagnosticSeverity::Hint => 4,
        };
        let id: u64 = SIGN_ID_BASE + (line - 1) * SIGN_IDS_PER_LINE + (rank - 1);
        Sign { id, line, severity }
    }

    /// The comparison pair of this sign.
    pub fn exec_key(&self) -> (k: (u64, u8))
        ensures
            k == self.key(),
    {
        (self.line, self.severity.rank())
    }

    /// Whether two signs mark the same thing: same line, same severity. The
    /// identifiers play no part.
    pub fn same_marker(&self, other: &Sign) -> (b: bool)
        ensures
            b == (self.key() == other.key()),
            b == (self.line == other.line && self.severity == other.severity),
    {
        self.line == other.line && self.severity.rank() == other.severity.rank()
    }
}

/// One step of a batch that turns the previous overlay of a file into the
/// current one.
#[derive(Clone, Debug)]
pub enum ReconciliationCommand {
    AddAnnotation { sign: Sign, file: String },
    RemoveAnnotation { sign: Sign, file: String },
}

/// What a command says: the sign and the characters of the target file's name.
pub ghost enum CommandModel {
    Add(Sign, Seq<char>),
    Remove(Sign, Seq<char>),
}

impl View for ReconciliationCommand {
    type V = CommandModel;

    open spec fn view(&self) -> CommandModel {
        match self {
            ReconciliationCommand::AddAnnotation { sign, file } => CommandModel::Add(*sign, file@),
            ReconciliationCommand::RemoveAnnotation { sign, file } => CommandModel::Remove(
                *sign,
                file@,
            ),
        }
    }
}

impl ReconciliationCommand {
    /// The sign that the command places or removes.
    pub fn sign(&self) -> (s: Sign)
        ensures
            s == match self@ {
                CommandModel::Add(sign, _) => sign,
                CommandModel::Remove(sign, _) => sign,
            },
    {
        match self {
            ReconciliationCommand::AddAnnotation { sign, .. } => *sign,
            ReconciliationCommand::RemoveAnnotation { sign, .. } => *sign,
        }
    }

    /// Whether the command places a sign.
    pub fn is_add(&self) -> (b: bool)
        ensures
            b == (self@ is Add),
    {
        match self {
            ReconciliationCommand::AddAnnotation { .. } => true,
            ReconciliationCommand::RemoveAnnotation { .. } => false,
        }
    }
}

} // verus!
