//! The logical phase of the engine.

use vstd::prelude::*;

verus! {

/// Current logical phase of the engine.
#[derive(Clone, Copy, Debug, PartialEq, Eq, Structural)]
pub enum Mode {
    Init,
    Encounter,
    Walk,
    Pause,
}

impl Mode {
    /// True for the phases in which the engine samples the screen.
    pub open spec fn is_sampling(self) -> bool {
        self == Mode::Encounter || self == Mode::Walk
    }

    /// The label under which the phase is shown to the user.
    pub open spec fn label(self) -> Seq<char> {
        match self {
            Mode::Init => "Init, Press S to start."@,
            Mode::Encounter => "Encounter"@,
            Mode::Walk => "Walk"@,
            Mode::Pause => "Pause"@,
        }
    }

    /// The name under which the phase is written to the state file: the
    /// name of its variant.
    pub open spec fn wire_name(self) -> Seq<char> {
        match self {
            Mode::Init => "Init"@,
            Mode::Encounter => "Encounter"@,
            Mode::Walk => "Walk"@,
            Mode::Pause => "Pause"@,
        }
    }

    /// The phase that a name of the state file stands for, if any.
    pub open spec fn named(name: Seq<char>) -> Option<Mode> {
        if name == "Init"@ {
            Some(Mode::Init)
        } else if name == "Encounter"@ {
            Some(Mode::Encounter)
        } else if name == "Walk"@ {
            Some(Mode::Walk)
        } else if name == "Pause"@ {
            Some(Mode::Pause)
        } else {
            None
        }
    }

    /// Whether the engine samples the screen in this phase.
    pub fn samples(&self) -> (sampling: bool)
        ensures
            sampling == self.is_sampling(),
    {
        match self {
            Mode::Encounter | Mode::Walk => true,
            Mode::Init | Mode::Pause => false,
        }
    }

    /// The name under which the phase is written to the state file.
    pub fn name(&self) -> (text: String)
        ensures
            text@ == self.wire_name(),
    {
        match self {
            Mode::Init => "Init".to_owned(),
            Mode::Encounter => "Encounter".to_owned(),
            Mode::Walk => "Walk".to_owned(),
            Mode::Pause => "Pause".to_owned(),
        }
    }

    /// Reads a phase from its name in the state file. Any other text names
    /// no phase.
    pub fn from_name(name: &str) -> (mode: Option<Mode>)
        ensures
            mode == Mode::named(name@),
    {
        let name = name.to_owned();
        if name == "Init".to_owned() {
            Some(Mode::Init)
        } else if name == "Encounter".to_owned() {
            Some(Mode::Encounter)
        } else if name == "Walk".to_owned() {
            Some(Mode::Walk)
        } else if name == "Pause".to_owned() {
            Some(Mode::Pause)
        } else {
            None
        }
    }

    /// The label under which the phase is shown to the user.
    pub fn to_string(&self) -> (text: String)
        ensures
            text@ == self.label(),
    {
        match self {
            Mode::Init => "Init, Press S to start.".to_owned(),
            Mode::Encounter => "Encounter".to_owned(),
            Mode::Walk => "Walk".to_owned(),
            Mode::Pause => "Pause".to_owned(),
        }
    }
}

/// A phase that is written to the state file is read back as itself, and
/// nothing but the name of a phase is read as one.
pub proof fn lemma_name_round_trip(mode: Mode, name: Seq<char>)
    ensures
        Mode::named(mode.wire_name()) == Some(mode),
        Mode::named(name) == Some(mode) ==> name == mode.wire_name(),
{
    reveal_strlit("Init");
    reveal_strlit("Encounter");
    reveal_strlit("Walk");
    reveal_strlit("Pause");
    assert("Init"@.len() == 4 && "Init"@[0] == 'I');
    assert("Encounter"@.len() == 9);
    assert("Walk"@.len() == 4 && "Walk"@[0] == 'W');
    assert("Pause"@.len() == 5);
}

/// The labels tell the phases apart.
pub proof fn lemma_labels_differ(one: Mode, other: Mode)
    requires
        one.label() == other.label(),
    ensures
        one == other,
{
    reveal_strlit("Init, Press S to start.");
    reveal_strlit("Encounter");
    reveal_strlit("Walk");
    reveal_strlit("Pause");
    assert(Mode::Init.label().len() == 23);
    assert(Mode::Encounter.label().len() == 9);
    assert(Mode::Walk.label().len() == 4);
    assert(Mode::Pause.label().len() == 5);
}

} // verus!
