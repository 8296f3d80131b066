//! A walk along the whole numbers: one step up or down at a time, from
//! anywhere to 69.
use vstd::prelude::*;
use vstd::string::*;
use crate::action::Action;
use crate::state::State;
use crate::text::{signed_decimal, append_signed_decimal, holds};
use colored::Colorize;

verus! {

/// The number to reach.
pub const SILLY_GOAL: i32 = 69;

/// The length of the strip that the picture of a state shows.
pub const STRIP_LENGTH: usize = 100;

/// A place on the number line.
#[derive(Clone, Copy, PartialEq, Eq, Hash, Debug)]
pub struct SillyPuzzle {
    pub n: i32,
}

/// One step along the number line, up or down.
#[derive(Clone, Copy, PartialEq, Eq, Debug)]
pub struct SillyPuzzleAction {
    pub change: i32,
}

impl SillyPuzzleAction {
    pub fn new(change: i32) -> (action: SillyPuzzleAction)
        ensures
            action.change == change,
    {
        SillyPuzzleAction { change }
    }
}

impl Action for SillyPuzzleAction {
    /// A step is one up or one down.
    open spec fn wf(&self) -> bool {
        self.change == 1 || self.change == -1
    }

    open spec fn cost(&self) -> nat {
        1
    }

    open spec fn rendering(&self) -> Seq<char> {
        if self.change == 1 {
            seq!['+']
        } else {
            seq!['-']
        }
    }

    /// A plus sign stands for the step up, a minus sign for the step down.
    open spec fn parsed(text: Seq<char>) -> Option<Self> {
        if text.len() == 1 && text[0] == '+' {
            Some(SillyPuzzleAction { change: 1 })
        } else if text.len() == 1 && text[0] == '-' {
            Some(SillyPuzzleAction { change: -1i32 })
        } else {
            None
        }
    }

    proof fn lemma_round_trip(action: &Self) {
    }

    proof fn lemma_parsed_wf(text: Seq<char>) {
    }

    fn is_valid(&self) -> (valid: bool) {
        self.change == 1 || self.change == -1
    }

    fn get_cost(&self) -> (c: u32) {
        1
    }

    fn to_string(&self) -> (s: String) {
        proof {
            reveal_strlit("+");
            reveal_strlit("-");
        }
        let s = if self.change == 1 {
            String::from_str("+")
        } else {
            String::from_str("-")
        };
        assert(s@ =~= self.rendering());
        s
    }

    fn from_str(s: &str) -> (r: Result<Self, ()>) {
        if s.unicode_len() != 1 {
            return Err(());
        }
        let c = s.get_char(0);
        if c == '+' {
            Ok(SillyPuzzleAction::new(1))
        } else if c == '-' {
            Ok(SillyPuzzleAction::new(-1))
        } else {
            Err(())
        }
    }

    fn duplicate(&self) -> (r: Self) {
        SillyPuzzleAction { change: self.change }
    }

    fn equals(&self, other: &Self) -> (b: bool) {
        self.change == other.change
    }
}

/// The heading of the picture of a state: the name of the puzzle in the
/// middle of a line of 102 characters.
pub open spec fn picture_heading() -> Seq<char> {
    "                                   T H E   S I L L Y   P U Z Z L E                                    "@
}

/// Whether `shown` is `text` as a terminal is to show it in a colour:
/// between the marks that switch the colour on and off, or as it is where
/// colours are switched off.
pub open spec fn tinted(text: Seq<char>, code: Seq<char>, shown: Seq<char>) -> bool {
    shown == text || shown == code + text + "\x1b[0m"@
}

/// `colored::Colorize::magenta`, written out by the `Display` of the
/// `ColoredString` that it gives. The contract claims of a text without
/// escape characters that it comes back between the marks for magenta and for
/// the end of the colour, or, where the environment has colours switched
/// off, as it is.
#[verifier::external_body]
fn magenta(text: &str) -> (shown: String)
    ensures
        !text@.contains('\x1b') ==> tinted(text@, "\x1b[35m"@, shown@),
{
    text.magenta().to_string()
}

/// `colored::Colorize::cyan`, written out by the `Display` of the
/// `ColoredString` that it gives. The contract claims of a text without
/// escape characters that it comes back between the marks for cyan and for
/// the end of the colour, or, where the environment has colours switched
/// off, as it is.
#[verifier::external_body]
fn cyan(text: &str) -> (shown: String)
    ensures
        !text@.contains('\x1b') ==> tinted(text@, "\x1b[36m"@, shown@),
{
    text.cyan().to_string()
}

/// The strip of the picture of a state, up to place `upto`: a star at the
/// goal, a ring where the state is, dots elsewhere.
pub open spec fn picture_strip(n: int, upto: int) -> Seq<char> {
    Seq::new(
        upto as nat,
        |i: int|
            if i == SILLY_GOAL {
                '*'
            } else if i == n {
                'o'
            } else {
                '.'
            },
    )
}

impl SillyPuzzle {
    pub fn new(n: i32) -> (state: SillyPuzzle)
        ensures
            state.n == n,
    {
        SillyPuzzle { n }
    }

    /// The strip of the picture.
    fn strip(&self) -> (s: String)
        ensures
            s@ == picture_strip(self.n as int, STRIP_LENGTH as int),
    {
        let mut s = String::new();
        let mut i: usize = 0;
        assert(s@ =~= picture_strip(self.n as int, 0));
        while i < STRIP_LENGTH
            invariant
                i <= STRIP_LENGTH,
                s@ == picture_strip(self.n as int, i as int),
            decreases STRIP_LENGTH - i,
        {
            let mark = if i == SILLY_GOAL as usize {
                "*"
            } else if self.n >= 0 && i == self.n as usize {
                "o"
            } else {
                "."
            };
            s.append(mark);
            i += 1;
            proof {
                reveal_strlit("*");
                reveal_strlit("o");
                reveal_strlit(".");
                let strip = picture_strip(self.n as int, i as int);
                assert(mark@ =~= seq![strip[i - 1]]);
                assert(s@ =~= picture_strip(self.n as int, i - 1) + mark@);
                assert(s@ =~= strip);
            }
        }
        s
    }

    /// The picture of the state for a terminal: the heading in magenta and
    /// the strip in cyan, where the environment has colours switched on.
    pub fn display_colored(&self) -> (s: String)
        ensures
            exists|heading: Seq<char>, strip: Seq<char>|
                {
                    &&& #[trigger] tinted(picture_heading(), "\x1b[35m"@, heading)
                    &&& #[trigger] tinted(
                        picture_strip(self.n as int, STRIP_LENGTH as int),
                        "\x1b[36m"@,
                        strip,
                    )
                    &&& s@ == heading + seq!['\n', '['] + strip + seq![']']
                },
    {
        let title =
            "                                   T H E   S I L L Y   P U Z Z L E                                    ";
        let heading = if holds(title, '\x1b') {
            String::from_str(title)
        } else {
            magenta(title)
        };
        let plain = self.strip();
        let strip = if holds(plain.as_str(), '\x1b') {
            plain
        } else {
            cyan(plain.as_str())
        };
        let mut s = String::new();
        s.append(heading.as_str());
        s.append("\n[");
        s.append(strip.as_str());
        s.append("]");
        proof {
            reveal_strlit("\n[");
            reveal_strlit("]");
            assert(s@ =~= heading@ + seq!['\n', '['] + strip@ + seq![']']);
            assert(tinted(picture_heading(), "\x1b[35m"@, heading@));
            assert(tinted(
                picture_strip(self.n as int, STRIP_LENGTH as int),
                "\x1b[36m"@,
                strip@,
            ));
        }
        s
    }
}

impl State for SillyPuzzle {
    type Action = SillyPuzzleAction;

    open spec fn wf(&self) -> bool {
        true
    }

    /// One step up, then one step down; at the ends of the range of the
    /// numbers only the step that stays within it.
    open spec fn legal_actions(&self) -> Seq<SillyPuzzleAction> {
        let up = SillyPuzzleAction { change: 1 };
        let down = SillyPuzzleAction { change: -1i32 };
        if self.n == i32::MAX {
            seq![down]
        } else if self.n == i32::MIN {
            seq![up]
        } else {
            seq![up, down]
        }
    }

    open spec fn successor(&self, action: &SillyPuzzleAction) -> SillyPuzzle {
        SillyPuzzle { n: (self.n + action.change) as i32 }
    }

    open spec fn is_goal(&self) -> bool {
        self.n == SILLY_GOAL
    }

    /// The distance to the goal.
    open spec fn estimate(&self) -> nat {
        if self.n <= SILLY_GOAL {
            (SILLY_GOAL - self.n) as nat
        } else {
            (self.n - SILLY_GOAL) as nat
        }
    }

    open spec fn rendering(&self) -> Seq<char> {
        signed_decimal(self.n as int)
    }

    /// The heading, and below it the first hundred places of the number
    /// line between square brackets.
    open spec fn picture(&self) -> Seq<char> {
        picture_heading() + seq!['\n', '['] + picture_strip(self.n as int, STRIP_LENGTH as int)
            + seq![']']
    }

    proof fn lemma_legal_actions(state: &Self) {
        let up = SillyPuzzleAction { change: 1 };
        let down = SillyPuzzleAction { change: -1i32 };
        assert(up != down);
    }

    fn is_valid(&self) -> (valid: bool) {
        true
    }

    fn display_pretty(&self) -> (s: String) {
        let mut s = String::from_str(
            "                                   T H E   S I L L Y   P U Z Z L E                                    ",
        );
        s.append("\n[");
        let strip = self.strip();
        s.append(strip.as_str());
        s.append("]");
        proof {
            reveal_strlit("\n[");
            reveal_strlit("]");
            assert(s@ =~= self.picture());
        }
        s
    }

    fn list_actions(&self) -> (actions: Vec<SillyPuzzleAction>) {
        let mut actions = Vec::new();
        if self.n < i32::MAX {
            actions.push(SillyPuzzleAction::new(1));
        }
        if self.n > i32::MIN {
            actions.push(SillyPuzzleAction::new(-1));
        }
        assert(actions@ =~= self.legal_actions());
        proof {
            Self::lemma_legal_actions(self);
        }
        actions
    }

    fn perform_action(&self, action: &SillyPuzzleAction) -> (next: SillyPuzzle) {
        SillyPuzzle::new(self.n + action.change)
    }

    fn is_goal_state(&self) -> (b: bool) {
        self.n == SILLY_GOAL
    }

    fn heuristic(&self) -> (h: u32) {
        if self.n <= SILLY_GOAL {
            (SILLY_GOAL as i64 - self.n as i64) as u32
        } else {
            (self.n as i64 - SILLY_GOAL as i64) as u32
        }
    }

    fn to_string(&self) -> (s: String) {
        let mut s = String::new();
        append_signed_decimal(&mut s, self.n as i64);
        assert(s@ =~= self.rendering());
        s
    }

    fn duplicate(&self) -> (r: Self) {
        SillyPuzzle { n: self.n }
    }

    fn equals(&self, other: &Self) -> (b: bool) {
        self.n == other.n
    }
}

} // verus!
