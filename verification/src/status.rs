//! The status enumeration: how one operator's results moved relative to the
//! previous run, with its fixed text and color mappings for the report.

use vstd::prelude::*;

verus! {

/// Outcome of comparing an operator's results with the previous run.
#[derive(Clone, Copy, Debug, PartialEq, Eq, Structural)]
pub enum OperatorStatus {
    /// Test results have improved.
    Up,
    /// Test results are getting worse.
    Down,
    /// All tests now pass simulation.
    Pass,
    /// Break from a previous full pass.
    Break,
    /// Test results are the same as before.
    Stable,
    /// Could not resolve the operator's status (first time seen).
    Undefined,
}

impl OperatorStatus {
    /// The HTML symbol the report shows for each status.
    pub open spec fn spec_symbol(self) -> Seq<char> {
        match self {
            OperatorStatus::Up => "&#8593"@,
            OperatorStatus::Down => "&#8595"@,
            OperatorStatus::Pass => "PASS!"@,
            OperatorStatus::Break => "BREAK!"@,
            OperatorStatus::Stable => "="@,
            OperatorStatus::Undefined => "n/a"@,
        }
    }

    /// The color the report uses for each status symbol.
    pub open spec fn spec_color(self) -> Seq<char> {
        match self {
            OperatorStatus::Up => "green"@,
            OperatorStatus::Down => "red"@,
            OperatorStatus::Pass => "green"@,
            OperatorStatus::Break => "red"@,
            OperatorStatus::Stable => "blue"@,
            OperatorStatus::Undefined => "black"@,
        }
    }

    /// The HTML representation of the status.
    pub fn to_string(&self) -> (r: &'static str)
        ensures
            r@ == self.spec_symbol(),
    {
        match self {
            OperatorStatus::Up => "&#8593",
            OperatorStatus::Down => "&#8595",
            OperatorStatus::Pass => "PASS!",
            OperatorStatus::Break => "BREAK!",
            OperatorStatus::Stable => "=",
            OperatorStatus::Undefined => "n/a",
        }
    }

    /// The HTML status color.
    pub fn color(&self) -> (r: &'static str)
        ensures
            r@ == self.spec_color(),
    {
        match self {
            OperatorStatus::Up => "green",
            OperatorStatus::Down => "red",
            OperatorStatus::Pass => "green",
            OperatorStatus::Break => "red",
            OperatorStatus::Stable => "blue",
            OperatorStatus::Undefined => "black",
        }
    }

    /// The whole CSS style attribute value that colors the status symbol.
    pub fn style(&self) -> (r: &'static str)
        ensures
            r@ == "color:"@ + self.spec_color(),
    {
        proof {
            reveal_strlit("color:");
            reveal_strlit("green");
            reveal_strlit("red");
            reveal_strlit("blue");
            reveal_strlit("black");
            reveal_strlit("color:green");
            reveal_strlit("color:red");
            reveal_strlit("color:blue");
            reveal_strlit("color:black");
            assert("color:green"@ =~= "color:"@ + "green"@);
            assert("color:red"@ =~= "color:"@ + "red"@);
            assert("color:blue"@ =~= "color:"@ + "blue"@);
            assert("color:black"@ =~= "color:"@ + "black"@);
        }
        match self {
            OperatorStatus::Up => "color:green",
            OperatorStatus::Down => "color:red",
            OperatorStatus::Pass => "color:green",
            OperatorStatus::Break => "color:red",
            OperatorStatus::Stable => "color:blue",
            OperatorStatus::Undefined => "color:black",
        }
    }

    /// The name under which the status is stored in the tabular files.
    pub open spec fn spec_name(self) -> Seq<u8> {
        match self {
            OperatorStatus::Up => seq![('U' as u8), ('p' as u8)],
            OperatorStatus::Down => seq![('D' as u8), ('o' as u8), ('w' as u8), ('n' as u8)],
            OperatorStatus::Pass => seq![('P' as u8), ('a' as u8), ('s' as u8), ('s' as u8)],
            OperatorStatus::Break => seq![('B' as u8), ('r' as u8), ('e' as u8), ('a' as u8), ('k' as u8)],
            OperatorStatus::Stable => seq![('S' as u8), ('t' as u8), ('a' as u8), ('b' as u8), ('l' as u8), ('e' as u8)],
            OperatorStatus::Undefined => seq![
                ('U' as u8), ('n' as u8), ('d' as u8), ('e' as u8), ('f' as u8), ('i' as u8), ('n' as u8), ('e' as u8), ('d' as u8),
            ],
        }
    }

    /// Writes the stored name of the status.
    pub fn name_bytes(&self) -> (r: Vec<u8>)
        ensures
            r@ == self.spec_name(),
    {
        let mut v: Vec<u8> = Vec::new();
        match self {
            OperatorStatus::Up => {
                v.push(('U' as u8));
                v.push(('p' as u8));
            },
            OperatorStatus::Down => {
                v.push(('D' as u8));
                v.push(('o' as u8));
                v.push(('w' as u8));
                v.push(('n' as u8));
            },
            OperatorStatus::Pass => {
                v.push(('P' as u8));
                v.push(('a' as u8));
                v.push(('s' as u8));
                v.push(('s' as u8));
            },
            OperatorStatus::Break => {
                v.push(('B' as u8));
                v.push(('r' as u8));
                v.push(('e' as u8));
                v.push(('a' as u8));
                v.push(('k' as u8));
            },
            OperatorStatus::Stable => {
                v.push(('S' as u8));
                v.push(('t' as u8));
                v.push(('a' as u8));
                v.push(('b' as u8));
                v.push(('l' as u8));
                v.push(('e' as u8));
            },
            OperatorStatus::Undefined => {
                v.push(('U' as u8));
                v.push(('n' as u8));
                v.push(('d' as u8));
                v.push(('e' as u8));
                v.push(('f' as u8));
                v.push(('i' as u8));
                v.push(('n' as u8));
                v.push(('e' as u8));
                v.push(('d' as u8));
            },
        }
        proof {
            assert(v@ =~= self.spec_name());
        }
        v
    }
}

} // verus!
