//! The roster that the surrounding application displays.

use vstd::prelude::*;
use vstd::string::{StrSliceExecFns, StringExecFns};

verus! {

/// The application's state: the characters in turn order, the index of the
/// one whose turn it is, and the log.
pub struct State {
    pub characters: Vec<Character>,
    pub selected_index: usize,
    pub log_messages: Vec<String>,
}

/// One entry of the roster.
pub struct Character {
    pub name: String,
    pub hp: String,
    pub notes: Option<String>,
}

impl Default for State {
    /// The empty state: no characters, nothing logged, index 0.
    fn default() -> (s: Self)
        ensures
            s.characters@.len() == 0,
            s.log_messages@.len() == 0,
            s.selected_index == 0,
    {
        State { characters: Vec::new(), selected_index: 0, log_messages: Vec::new() }
    }
}

impl Character {
    /// A character with the given name and hit points, and no notes.
    pub fn new(name: &str, hp: &str) -> (c: Self)
        ensures
            c.name@ == name@,
            c.hp@ == hp@,
            c.notes is None,
    {
        Character { name: String::from_str(name), hp: String::from_str(hp), notes: None }
    }
}

/// The names of the initial roster, in turn order.
pub open spec fn roster_names() -> Seq<Seq<char>> {
    seq![
        "Player #1"@,
        "Player #2"@,
        "Monster #1"@,
        "Player #3"@,
        "Monster #2"@,
        "Player #4"@,
        "Monster #3"@,
        "Monster #4"@,
    ]
}

/// The state that the application starts with: eight characters at full hit
/// points, the first one selected, the third one dazed, and an empty log.
pub fn build_state() -> (s: State)
    ensures
        s.selected_index == 0,
        s.log_messages@.len() == 0,
        s.characters@.len() == 8,
        forall|i: int|
            0 <= i < 8 ==> (#[trigger] s.characters@[i]).name@ == roster_names()[i]
                && s.characters@[i].hp@ == "24/24"@,
        forall|i: int| 0 <= i < 8 && i != 2 ==> (#[trigger] s.characters@[i]).notes is None,
        s.characters@[2].notes matches Some(n) && n@ == "dazed"@,
{
    let mut s = State::default();
    let mut dazed = Character::new("Monster #1", "24/24");
    dazed.notes = Some(String::from_str("dazed"));
    s.characters.push(Character::new("Player #1", "24/24"));
    s.characters.push(Character::new("Player #2", "24/24"));
    s.characters.push(dazed);
    s.characters.push(Character::new("Player #3", "24/24"));
    s.characters.push(Character::new("Monster #2", "24/24"));
    s.characters.push(Character::new("Player #4", "24/24"));
    s.characters.push(Character::new("Monster #3", "24/24"));
    s.characters.push(Character::new("Monster #4", "24/24"));
    s
}

/// One line of the roster as it is shown: whether it is the selected one, the
/// name, and what follows the name.
pub struct RosterRow {
    pub selected: bool,
    pub name: String,
    pub rest: String,
}

/// The length, in characters, of the longest name among `characters`; 0 where
/// there are none.
pub open spec fn longest_name_len(characters: Seq<Character>) -> nat
    decreases characters.len(),
{
    if characters.len() == 0 {
        0
    } else {
        let before = longest_name_len(characters.drop_last());
        let last = characters.last().name@.len();
        if last > before {
            last
        } else {
            before
        }
    }
}

/// `n` dots.
pub open spec fn dots(n: nat) -> Seq<char> {
    Seq::new(n, |i: int| '.')
}

/// A character's notes, or the empty text.
pub open spec fn notes_text(c: Character) -> Seq<char> {
    match c.notes {
        Some(n) => n@,
        None => Seq::empty(),
    }
}

/// What follows a character's name in the roster: dots that pad the name to
/// two more than the longest name, the hit points, a space, and the notes.
pub open spec fn row_rest(c: Character, longest: nat) -> Seq<char> {
    dots((longest - c.name@.len() + 2) as nat) + c.hp@ + seq![' '] + notes_text(c)
}

/// No name is longer than the longest.
pub proof fn lemma_longest_name(characters: Seq<Character>, i: int)
    requires
        0 <= i < characters.len(),
    ensures
        characters[i].name@.len() <= longest_name_len(characters),
    decreases characters.len(),
{
    if i < characters.len() - 1 {
        lemma_longest_name(characters.drop_last(), i);
    }
}

/// The length of the longest name in the roster.
pub fn longest_name(characters: &Vec<Character>) -> (n: usize)
    ensures
        n == longest_name_len(characters@),
{
    let mut longest: usize = 0;
    let mut i: usize = 0;
    while i < characters.len()
        invariant
            0 <= i <= characters@.len(),
            longest == longest_name_len(characters@.take(i as int)),
        decreases characters@.len() - i,
    {
        let len = characters[i].name.as_str().unicode_len();
        proof {
            assert(characters@.take(i + 1).drop_last() =~= characters@.take(i as int));
        }
        if len > longest {
            longest = len;
        }
        i = i + 1;
    }
    assert(characters@.take(i as int) =~= characters@);
    longest
}

/// A text of `n` dots followed by two more.
fn padding(n: usize) -> (s: String)
    ensures
        s@ == dots((n + 2) as nat),
{
    let mut s = String::from_str("..");
    proof {
        reveal_strlit("..");
        reveal_strlit(".");
        assert(s@ =~= dots(2));
    }
    let mut i: usize = 0;
    while i < n
        invariant
            0 <= i <= n,
            s@ == dots((i + 2) as nat),
            "."@ == seq!['.'],
        decreases n - i,
    {
        s.append(".");
        assert(s@ =~= dots((i + 3) as nat));
        i = i + 1;
    }
    s
}

/// The roster as it is shown: one row for each character, in order, the
/// selected one marked.
pub fn roster_rows(state: &State) -> (rows: Vec<RosterRow>)
    ensures
        rows@.len() == state.characters@.len(),
        forall|i: int|
            0 <= i < rows@.len() ==> {
                &&& (#[trigger] rows@[i]).selected == (i == state.selected_index)
                &&& rows@[i].name@ == state.characters@[i].name@
                &&& rows@[i].rest@ == row_rest(
                    state.characters@[i],
                    longest_name_len(state.characters@),
                )
            },
{
    let longest = longest_name(&state.characters);
    let mut rows: Vec<RosterRow> = Vec::new();
    let mut i: usize = 0;
    while i < state.characters.len()
        invariant
            0 <= i <= state.characters@.len(),
            longest == longest_name_len(state.characters@),
            rows@.len() == i,
            forall|j: int|
                0 <= j < i ==> {
                    &&& (#[trigger] rows@[j]).selected == (j == state.selected_index)
                    &&& rows@[j].name@ == state.characters@[j].name@
                    &&& rows@[j].rest@ == row_rest(state.characters@[j], longest as nat)
                },
        decreases state.characters@.len() - i,
    {
        let c = &state.characters[i];
        let name_length = c.name.as_str().unicode_len();
        proof {
            lemma_longest_name(state.characters@, i as int);
            reveal_strlit(" ");
            assert(" "@ =~= seq![' ']);
        }
        let mut rest = padding(longest - name_length);
        rest.append(c.hp.as_str());
        rest.append(" ");
        match &c.notes {
            Some(notes) => {
                rest.append(notes.as_str());
            },
            None => {
                assert(rest@ + Seq::<char>::empty() =~= rest@);
            },
        }
        rows.push(RosterRow { selected: i == state.selected_index, name: c.name.clone(), rest });
        i = i + 1;
    }
    rows
}

} // verus!
