//! The types of items.
use vstd::prelude::*;
use crate::text;

verus! {

/// What an item is.
#[derive(Debug, Clone, Copy, PartialEq, Eq, Structural)]
pub enum ItemType {
    Expedition,
    Voyage,
    Campaign,
    Chore,
    Hazard,
    Signal,
    Feature,
    Paper,
    Hypothesis,
    Experiment,
    Measure,
    Idea,
    Literature,
}

/// The name of a type.
pub open spec fn name_of_type(t: ItemType) -> Seq<char> {
    match t {
        ItemType::Expedition => "expedition"@,
        ItemType::Voyage => "voyage"@,
        ItemType::Campaign => "campaign"@,
        ItemType::Chore => "chore"@,
        ItemType::Hazard => "hazard"@,
        ItemType::Signal => "signal"@,
        ItemType::Feature => "feature"@,
        ItemType::Paper => "paper"@,
        ItemType::Hypothesis => "hypothesis"@,
        ItemType::Experiment => "experiment"@,
        ItemType::Measure => "measure"@,
        ItemType::Idea => "idea"@,
        ItemType::Literature => "literature"@,
    }
}

/// What the ids of a type start with.
pub open spec fn type_prefix(t: ItemType) -> Seq<char> {
    match t {
        ItemType::Expedition => "EX"@,
        ItemType::Voyage => "VY"@,
        ItemType::Campaign => "CA"@,
        ItemType::Chore => "CH"@,
        ItemType::Hazard => "HZ"@,
        ItemType::Signal => "SG"@,
        ItemType::Feature => "FT"@,
        ItemType::Paper => "PAPER"@,
        ItemType::Hypothesis => "H"@,
        ItemType::Experiment => "EXPR"@,
        ItemType::Measure => "M"@,
        ItemType::Idea => "IDEA"@,
        ItemType::Literature => "LIT"@,
    }
}

/// Whether a type belongs to the research board.
pub open spec fn is_research(t: ItemType) -> bool {
    match t {
        ItemType::Paper => true,
        ItemType::Hypothesis => true,
        ItemType::Experiment => true,
        ItemType::Measure => true,
        ItemType::Idea => true,
        ItemType::Literature => true,
        _ => false,
    }
}

/// The type with a name, in whatever case.
pub open spec fn type_named(name: Seq<char>) -> Option<ItemType> {
    let l = text::lower_spec(name);
    if l == "expedition"@ {
        Some(ItemType::Expedition)
    } else if l == "voyage"@ {
        Some(ItemType::Voyage)
    } else if l == "campaign"@ {
        Some(ItemType::Campaign)
    } else if l == "chore"@ {
        Some(ItemType::Chore)
    } else if l == "hazard"@ {
        Some(ItemType::Hazard)
    } else if l == "signal"@ {
        Some(ItemType::Signal)
    } else if l == "feature"@ {
        Some(ItemType::Feature)
    } else if l == "paper"@ {
        Some(ItemType::Paper)
    } else if l == "hypothesis"@ {
        Some(ItemType::Hypothesis)
    } else if l == "experiment"@ {
        Some(ItemType::Experiment)
    } else if l == "measure"@ {
        Some(ItemType::Measure)
    } else if l == "idea"@ {
        Some(ItemType::Idea)
    } else if l == "literature"@ {
        Some(ItemType::Literature)
    } else {
        None
    }
}

impl ItemType {
    /// The types of the development board.
    pub const DEV: [ItemType; 7] = [
        ItemType::Expedition,
        ItemType::Voyage,
        ItemType::Campaign,
        ItemType::Chore,
        ItemType::Hazard,
        ItemType::Signal,
        ItemType::Feature,
    ];

    /// The types of the research board.
    pub const RESEARCH: [ItemType; 6] = [
        ItemType::Paper,
        ItemType::Hypothesis,
        ItemType::Experiment,
        ItemType::Measure,
        ItemType::Idea,
        ItemType::Literature,
    ];

    /// The name of the type.
    pub fn as_str(&self) -> (r: &'static str)
        ensures
            r@ == name_of_type(*self),
    {
        match self {
            ItemType::Expedition => "expedition",
            ItemType::Voyage => "voyage",
            ItemType::Campaign => "campaign",
            ItemType::Chore => "chore",
            ItemType::Hazard => "hazard",
            ItemType::Signal => "signal",
            ItemType::Feature => "feature",
            ItemType::Paper => "paper",
            ItemType::Hypothesis => "hypothesis",
            ItemType::Experiment => "experiment",
            ItemType::Measure => "measure",
            ItemType::Idea => "idea",
            ItemType::Literature => "literature",
        }
    }

    /// What the ids of the type start with.
    pub fn prefix(&self) -> (r: &'static str)
        ensures
            r@ == type_prefix(*self),
    {
        match self {
            ItemType::Expedition => "EX",
            ItemType::Voyage => "VY",
            ItemType::Campaign => "CA",
            ItemType::Chore => "CH",
            ItemType::Hazard => "HZ",
            ItemType::Signal => "SG",
            ItemType::Feature => "FT",
            ItemType::Paper => "PAPER",
            ItemType::Hypothesis => "H",
            ItemType::Experiment => "EXPR",
            ItemType::Measure => "M",
            ItemType::Idea => "IDEA",
            ItemType::Literature => "LIT",
        }
    }

    /// The type with a name, in whatever case.
    pub fn from_str_loose(name: &str) -> (r: Option<ItemType>)
        ensures
            r == type_named(name@),
    {
        let lowered: String = text::lower(name);
        let l: &str = lowered.as_str();
        if text::same(l, "expedition") {
            Some(ItemType::Expedition)
        } else if text::same(l, "voyage") {
            Some(ItemType::Voyage)
        } else if text::same(l, "campaign") {
            Some(ItemType::Campaign)
        } else if text::same(l, "chore") {
            Some(ItemType::Chore)
        } else if text::same(l, "hazard") {
            Some(ItemType::Hazard)
        } else if text::same(l, "signal") {
            Some(ItemType::Signal)
        } else if text::same(l, "feature") {
            Some(ItemType::Feature)
        } else if text::same(l, "paper") {
            Some(ItemType::Paper)
        } else if text::same(l, "hypothesis") {
            Some(ItemType::Hypothesis)
        } else if text::same(l, "experiment") {
            Some(ItemType::Experiment)
        } else if text::same(l, "measure") {
            Some(ItemType::Measure)
        } else if text::same(l, "idea") {
            Some(ItemType::Idea)
        } else if text::same(l, "literature") {
            Some(ItemType::Literature)
        } else {
            None
        }
    }
}

// ---- names and prefixes ------------------------------------------------------------------------------------------

proof fn lemma_name_words()
    ensures
        forall|a: ItemType, b: ItemType| #[trigger]
            name_of_type(a) == #[trigger] name_of_type(b) ==> a == b,
        forall|t: ItemType, k: int|
            0 <= k < name_of_type(t).len() ==> 'a' <= #[trigger] name_of_type(t)[k] <= 'z',
{
    reveal_strlit("expedition");
    reveal_strlit("voyage");
    reveal_strlit("campaign");
    reveal_strlit("chore");
    reveal_strlit("hazard");
    reveal_strlit("signal");
    reveal_strlit("feature");
    reveal_strlit("paper");
    reveal_strlit("hypothesis");
    reveal_strlit("experiment");
    reveal_strlit("measure");
    reveal_strlit("idea");
    reveal_strlit("literature");
    assert("expedition"@[3] == 'e' && "experiment"@[3] == 'e' && "expedition"@[4] == 'd'
        && "experiment"@[4] == 'r');
    assert("voyage"@[0] == 'v' && "campaign"@[1] == 'a' && "chore"@[1] == 'h');
    assert("hazard"@[1] == 'a' && "hypothesis"@[1] == 'y' && "signal"@[0] == 's');
    assert("feature"@[0] == 'f' && "paper"@[0] == 'p' && "measure"@[0] == 'm');
    assert("idea"@[0] == 'i' && "literature"@[0] == 'l' && "expedition"@[0] == 'e'
        && "experiment"@[0] == 'e' && "campaign"@[0] == 'c' && "chore"@[0] == 'c' && "hazard"@[0]
        == 'h' && "hypothesis"@[0] == 'h');
}

/// A name, in whatever case, names the type that has it, and no other.
pub proof fn law_types_are_named(name: Seq<char>, t: ItemType)
    ensures
        type_named(name) == Some(t) <==> text::lower_spec(name) == name_of_type(t),
        type_named(name_of_type(t)) == Some(t),
{
    lemma_name_words();
    let own = name_of_type(t);
    assert(text::lower_spec(own) =~= own);
    lemma_named(name);
    lemma_named(own);
}

proof fn lemma_named(name: Seq<char>)
    ensures
        type_named(name) matches Some(t) ==> text::lower_spec(name) == name_of_type(t),
        type_named(name) is None ==> forall|t: ItemType|
            text::lower_spec(name) != #[trigger] name_of_type(t),
{
}

proof fn lemma_prefix_letters()
    ensures
        forall|a: ItemType, b: ItemType| #[trigger]
            type_prefix(a) == #[trigger] type_prefix(b) ==> a == b,
{
    reveal_strlit("EX");
    reveal_strlit("VY");
    reveal_strlit("CA");
    reveal_strlit("CH");
    reveal_strlit("HZ");
    reveal_strlit("SG");
    reveal_strlit("FT");
    reveal_strlit("PAPER");
    reveal_strlit("H");
    reveal_strlit("EXPR");
    reveal_strlit("M");
    reveal_strlit("IDEA");
    reveal_strlit("LIT");
    assert("EX"@[0] == 'E' && "EX"@.len() == 2 && "EXPR"@.len() == 4 && "EXPR"@[0] == 'E');
    assert("VY"@[0] == 'V' && "CA"@[0] == 'C' && "CA"@[1] == 'A' && "CH"@[0] == 'C' && "CH"@[1]
        == 'H');
    assert("HZ"@[0] == 'H' && "HZ"@.len() == 2 && "H"@[0] == 'H' && "H"@.len() == 1);
    assert("SG"@[0] == 'S' && "FT"@[0] == 'F' && "PAPER"@[0] == 'P' && "M"@[0] == 'M');
    assert("IDEA"@[0] == 'I' && "LIT"@[0] == 'L');
}

/// No two types have a prefix in common, nor a name.
pub proof fn law_types_are_told_apart(a: ItemType, b: ItemType)
    ensures
        type_prefix(a) == type_prefix(b) <==> a == b,
        name_of_type(a) == name_of_type(b) <==> a == b,
{
    lemma_prefix_letters();
    lemma_name_words();
}

/// The two boards share out the types: each type is on exactly one of them, papers,
/// hypotheses, experiments, measures, ideas and literature on that of research.
pub proof fn law_boards_share_out_the_types(t: ItemType)
    ensures
        ItemType::RESEARCH@.contains(t) <==> name_of_type(t) == "paper"@ || name_of_type(t)
            == "hypothesis"@ || name_of_type(t) == "experiment"@ || name_of_type(t) == "measure"@
            || name_of_type(t) == "idea"@ || name_of_type(t) == "literature"@,
        ItemType::DEV@.contains(t) <==> !ItemType::RESEARCH@.contains(t),
        is_research(t) <==> ItemType::RESEARCH@.contains(t),
{
    lemma_name_words();
    let dev = ItemType::DEV@;
    let research = ItemType::RESEARCH@;
    assert(dev[0] == ItemType::Expedition && dev[1] == ItemType::Voyage && dev[2]
        == ItemType::Campaign && dev[3] == ItemType::Chore && dev[4] == ItemType::Hazard && dev[5]
        == ItemType::Signal && dev[6] == ItemType::Feature);
    assert(research[0] == ItemType::Paper && research[1] == ItemType::Hypothesis && research[2]
        == ItemType::Experiment && research[3] == ItemType::Measure && research[4]
        == ItemType::Idea && research[5] == ItemType::Literature);
    assert(name_of_type(ItemType::Paper) == "paper"@ && name_of_type(ItemType::Hypothesis)
        == "hypothesis"@ && name_of_type(ItemType::Experiment) == "experiment"@ && name_of_type(
        ItemType::Measure,
    ) == "measure"@ && name_of_type(ItemType::Idea) == "idea"@ && name_of_type(
        ItemType::Literature,
    ) == "literature"@);
}

} // verus!
