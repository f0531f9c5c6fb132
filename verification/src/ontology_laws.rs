//! What the vocabulary and the lifecycle model of the ontology are sure to say.
use vstd::prelude::*;
use crate::declarations;
use crate::declarations::Pair;
use crate::ontology;
use crate::reading;
use crate::relation_vocab;
use crate::relation_vocab::PredicateView;
use crate::state_machine;
use crate::state_model;
use crate::text;
use crate::turtle;

verus! {

// ---- the parts of the ontology ---------------------------------------------------------------------

proof fn lemma_items()
    ensures
        declarations::says(ontology::parts()[0], Seq::empty(), Seq::empty()),
{
    reveal_strlit(
        r##"# The kanban ontology.

@prefix kb: <https://arrow-kanban.dev/ontology/> .
@prefix owl: <http://www.w3.org/2002/07/owl/> .
@prefix rdfs: <http://www.w3.org/2000/01/rdf-schema/> .

kb:Item a owl:Class ;
    rdfs:label "Item" .

kb:DevItem a owl:Class ;
    rdfs:subClassOf kb:Item ;
    rdfs:label "Development item" .

kb:ResearchItem a owl:Class ;
    rdfs:subClassOf kb:Item ;
    rdfs:label "Research item" .

kb:Expedition a owl:Class ;
    rdfs:subClassOf kb:DevItem ;
    rdfs:label "Expedition" .

kb:Voyage a owl:Class ;
    rdfs:subClassOf kb:DevItem ;
    rdfs:label "Voyage" .

kb:Campaign a owl:Class ;
    rdfs:subClassOf kb:DevItem ;
    rdfs:label "Campaign" .

kb:Chore a owl:Class ;
    rdfs:subClassOf kb:DevItem ;
    rdfs:label "Chore" .

kb:Hazard a owl:Class ;
    rdfs:subClassOf kb:DevItem ;
    rdfs:label "Hazard" .

kb:Signal a owl:Class ;
    rdfs:subClassOf kb:DevItem ;
    rdfs:label "Signal" .

kb:Feature a owl:Class ;
    rdfs:subClassOf kb:DevItem ;
    rdfs:label "Feature" .

"##,
    );
    reveal_strlit("Feature");
    reveal_strlit("rdfs:label");
    reveal_strlit("owl:ObjectProperty");
    reveal_strlit("kb:LifecycleState");
    let s = ontology::parts()[0];
    let c = declarations::literal_clause("rdfs:label"@, "Feature"@);
    let before = s.take(s.len() - 8 - c.len());
    declarations::lemma_literal_clause("rdfs:label"@, "Feature"@);
    assert(s =~= before + seq![' ', ' ', ' ', ' '] + c + seq![' ', '.', '\n', '\n']) by {
        let end = seq![' ', ' ', ' ', ' '] + c + seq![' ', '.', '\n', '\n'];
        assert(s.skip(s.len() - 8 - c.len()) =~= end);
    }
    declarations::lemma_says_nothing(s, before, c, 6, 3);
}

proof fn lemma_research_items()
    ensures
        declarations::says(ontology::parts()[1], Seq::empty(), Seq::empty()),
{
    reveal_strlit(
        r##"kb:Paper a owl:Class ;
    rdfs:subClassOf kb:ResearchItem ;
    rdfs:label "Paper" .

kb:Hypothesis a owl:Class ;
    rdfs:subClassOf kb:ResearchItem ;
    rdfs:label "Hypothesis" .

kb:Experiment a owl:Class ;
    rdfs:subClassOf kb:ResearchItem ;
    rdfs:label "Experiment" .

kb:Measure a owl:Class ;
    rdfs:subClassOf kb:ResearchItem ;
    rdfs:label "Measure" .

kb:Idea a owl:Class ;
    rdfs:subClassOf kb:ResearchItem ;
    rdfs:label "Idea" .

kb:Literature a owl:Class ;
    rdfs:subClassOf kb:ResearchItem ;
    rdfs:label "Literature" .

"##,
    );
    reveal_strlit("Literature");
    reveal_strlit("rdfs:label");
    reveal_strlit("owl:ObjectProperty");
    reveal_strlit("kb:LifecycleState");
    let s = ontology::parts()[1];
    let c = declarations::literal_clause("rdfs:label"@, "Literature"@);
    let before = s.take(s.len() - 8 - c.len());
    declarations::lemma_literal_clause("rdfs:label"@, "Literature"@);
    assert(s =~= before + seq![' ', ' ', ' ', ' '] + c + seq![' ', '.', '\n', '\n']) by {
        let end = seq![' ', ' ', ' ', ' '] + c + seq![' ', '.', '\n', '\n'];
        assert(s.skip(s.len() - 8 - c.len()) =~= end);
    }
    declarations::lemma_says_nothing(s, before, c, 6, 12);
}

proof fn lemma_other_kinds()
    ensures
        declarations::says(ontology::parts()[2], Seq::empty(), Seq::empty()),
{
    reveal_strlit(
        r##"kb:Proposal a owl:Class ;
    kb:idPrefix "PROP" ;
    rdfs:label "Proposal" .

kb:Comment a owl:Class ;
    kb:idPrefix "CMT" ;
    rdfs:label "Comment" .

kb:Run a owl:Class ;
    rdfs:label "Run" .

kb:ExperimentRun a owl:Class ;
    rdfs:label "Experiment run" .

kb:CIResult a owl:Class ;
    rdfs:label "CI result" .

kb:status a owl:DatatypeProperty ;
    rdfs:domain kb:Item ;
    rdfs:label "status" .

kb:acfDimension a owl:DatatypeProperty ;
    rdfs:domain kb:Hypothesis ;
    rdfs:label "acfDimension" .

"##,
    );
    reveal_strlit("acfDimension");
    reveal_strlit("rdfs:label");
    reveal_strlit("owl:ObjectProperty");
    reveal_strlit("kb:LifecycleState");
    let s = ontology::parts()[2];
    let c = declarations::literal_clause("rdfs:label"@, "acfDimension"@);
    let before = s.take(s.len() - 8 - c.len());
    declarations::lemma_literal_clause("rdfs:label"@, "acfDimension"@);
    assert(s =~= before + seq![' ', ' ', ' ', ' '] + c + seq![' ', '.', '\n', '\n']) by {
        let end = seq![' ', ' ', ' ', ' '] + c + seq![' ', '.', '\n', '\n'];
        assert(s.skip(s.len() - 8 - c.len()) =~= end);
    }
    declarations::lemma_says_nothing(s, before, c, 6, 3);
}

proof fn lemma_related()
    ensures
        declarations::says(ontology::parts()[3], seq![("related"@, None::<Seq<char>>)], Seq::empty()),
{
    reveal_strlit(
        r##"kb:related a owl:ObjectProperty ;
    rdfs:domain kb:Item ;
    rdfs:range kb:Item ;
    rdfs:label "related" ;
    rdfs:comment "informational link between any two items (the existing --related)" .

"##,
    );
    reveal_strlit("related");
    reveal_strlit("kb:Item");
    reveal_strlit("kb:");
    reveal_strlit("owl:ObjectProperty");
    reveal_strlit("rdfs:domain");
    reveal_strlit("rdfs:range");
    reveal_strlit("rdfs:label");
    reveal_strlit("rdfs:comment");
    let s = ontology::parts()[3];
    let inverse = None::<Seq<char>>;
    let start = declarations::relation_start("related"@, "kb:Item"@, "kb:Item"@, inverse);
    assert(s.take(start.len() as int) =~= start);
    assert(s.skip(s.len() - 5) =~= seq!['"', ' ', '.', '\n', '\n']);
    declarations::lemma_relation(s, "related"@, "kb:Item"@, "kb:Item"@, inverse);
}

proof fn lemma_depends_on()
    ensures
        declarations::says(ontology::parts()[4], seq![("dependsOn"@, Some("blocks"@))], Seq::empty()),
{
    reveal_strlit(
        r##"kb:dependsOn a owl:ObjectProperty ;
    rdfs:domain kb:Item ;
    rdfs:range kb:Item ;
    owl:inverseOf kb:blocks ;
    rdfs:label "dependsOn" ;
    rdfs:comment "this item is BLOCKED BY the target (the existing --depends-on)" .

"##,
    );
    reveal_strlit("dependsOn");
    reveal_strlit("blocks");
    reveal_strlit("kb:Item");
    reveal_strlit("kb:");
    reveal_strlit("owl:ObjectProperty");
    reveal_strlit("rdfs:domain");
    reveal_strlit("rdfs:range");
    reveal_strlit("owl:inverseOf");
    reveal_strlit("rdfs:label");
    reveal_strlit("rdfs:comment");
    let s = ontology::parts()[4];
    let inverse = Some("blocks"@);
    let start = declarations::relation_start("dependsOn"@, "kb:Item"@, "kb:Item"@, inverse);
    assert(s.take(start.len() as int) =~= start);
    assert(s.skip(s.len() - 5) =~= seq!['"', ' ', '.', '\n', '\n']);
    declarations::lemma_relation(s, "dependsOn"@, "kb:Item"@, "kb:Item"@, inverse);
}

proof fn lemma_blocks()
    ensures
        declarations::says(ontology::parts()[5], seq![("blocks"@, Some("dependsOn"@))], Seq::empty()),
{
    reveal_strlit(
        r##"kb:blocks a owl:ObjectProperty ;
    rdfs:domain kb:Item ;
    rdfs:range kb:Item ;
    owl:inverseOf kb:dependsOn ;
    rdfs:label "blocks" ;
    rdfs:comment "this item BLOCKS the target (inverse of dependsOn; stored one way only)" .

"##,
    );
    reveal_strlit("blocks");
    reveal_strlit("dependsOn");
    reveal_strlit("kb:Item");
    reveal_strlit("kb:");
    reveal_strlit("owl:ObjectProperty");
    reveal_strlit("rdfs:domain");
    reveal_strlit("rdfs:range");
    reveal_strlit("owl:inverseOf");
    reveal_strlit("rdfs:label");
    reveal_strlit("rdfs:comment");
    let s = ontology::parts()[5];
    let inverse = Some("dependsOn"@);
    let start = declarations::relation_start("blocks"@, "kb:Item"@, "kb:Item"@, inverse);
    assert(s.take(start.len() as int) =~= start);
    assert(s.skip(s.len() - 5) =~= seq!['"', ' ', '.', '\n', '\n']);
    declarations::lemma_relation(s, "blocks"@, "kb:Item"@, "kb:Item"@, inverse);
}

proof fn lemma_parent()
    ensures
        declarations::says(ontology::parts()[6], seq![("parent"@, None::<Seq<char>>)], Seq::empty()),
{
    reveal_strlit(
        r##"kb:parent a owl:ObjectProperty ;
    rdfs:domain kb:Item ;
    rdfs:range kb:Item ;
    rdfs:label "parent" ;
    rdfs:comment "hierarchical containment — this item is contained by the target" .

"##,
    );
    reveal_strlit("parent");
    reveal_strlit("kb:Item");
    reveal_strlit("kb:");
    reveal_strlit("owl:ObjectProperty");
    reveal_strlit("rdfs:domain");
    reveal_strlit("rdfs:range");
    reveal_strlit("rdfs:label");
    reveal_strlit("rdfs:comment");
    let s = ontology::parts()[6];
    let inverse = None::<Seq<char>>;
    let start = declarations::relation_start("parent"@, "kb:Item"@, "kb:Item"@, inverse);
    assert(s.take(start.len() as int) =~= start);
    assert(s.skip(s.len() - 5) =~= seq!['"', ' ', '.', '\n', '\n']);
    declarations::lemma_relation(s, "parent"@, "kb:Item"@, "kb:Item"@, inverse);
}

proof fn lemma_implements()
    ensures
        declarations::says(ontology::parts()[7], seq![("implements"@, Some("spawns"@))], Seq::empty()),
{
    reveal_strlit(
        r##"kb:implements a owl:ObjectProperty ;
    rdfs:domain kb:Expedition ;
    rdfs:range kb:Voyage ;
    owl:inverseOf kb:spawns ;
    rdfs:label "implements" ;
    rdfs:comment "an expedition delivers work toward a voyage" .

"##,
    );
    reveal_strlit("implements");
    reveal_strlit("spawns");
    reveal_strlit("kb:Expedition");
    reveal_strlit("kb:Voyage");
    reveal_strlit("kb:");
    reveal_strlit("owl:ObjectProperty");
    reveal_strlit("rdfs:domain");
    reveal_strlit("rdfs:range");
    reveal_strlit("owl:inverseOf");
    reveal_strlit("rdfs:label");
    reveal_strlit("rdfs:comment");
    let s = ontology::parts()[7];
    let inverse = Some("spawns"@);
    let start = declarations::relation_start("implements"@, "kb:Expedition"@, "kb:Voyage"@, inverse);
    assert(s.take(start.len() as int) =~= start);
    assert(s.skip(s.len() - 5) =~= seq!['"', ' ', '.', '\n', '\n']);
    declarations::lemma_relation(s, "implements"@, "kb:Expedition"@, "kb:Voyage"@, inverse);
}

proof fn lemma_spawns()
    ensures
        declarations::says(ontology::parts()[8], seq![("spawns"@, Some("implements"@))], Seq::empty()),
{
    reveal_strlit(
        r##"kb:spawns a owl:ObjectProperty ;
    rdfs:domain kb:Voyage ;
    rdfs:range kb:Expedition ;
    owl:inverseOf kb:implements ;
    rdfs:label "spawns" ;
    rdfs:comment "a voyage creates and coordinates an expedition" .

"##,
    );
    reveal_strlit("spawns");
    reveal_strlit("implements");
    reveal_strlit("kb:Voyage");
    reveal_strlit("kb:Expedition");
    reveal_strlit("kb:");
    reveal_strlit("owl:ObjectProperty");
    reveal_strlit("rdfs:domain");
    reveal_strlit("rdfs:range");
    reveal_strlit("owl:inverseOf");
    reveal_strlit("rdfs:label");
    reveal_strlit("rdfs:comment");
    let s = ontology::parts()[8];
    let inverse = Some("implements"@);
    let start = declarations::relation_start("spawns"@, "kb:Voyage"@, "kb:Expedition"@, inverse);
    assert(s.take(start.len() as int) =~= start);
    assert(s.skip(s.len() - 5) =~= seq!['"', ' ', '.', '\n', '\n']);
    declarations::lemma_relation(s, "spawns"@, "kb:Voyage"@, "kb:Expedition"@, inverse);
}

proof fn lemma_tests()
    ensures
        declarations::says(ontology::parts()[9], seq![("tests"@, None::<Seq<char>>)], Seq::empty()),
{
    reveal_strlit(
        r##"kb:tests a owl:ObjectProperty ;
    rdfs:domain kb:Hypothesis ;
    rdfs:range kb:Paper ;
    rdfs:label "tests" ;
    rdfs:comment "a hypothesis is tested in the context of a paper" .

"##,
    );
    reveal_strlit("tests");
    reveal_strlit("kb:Hypothesis");
    reveal_strlit("kb:Paper");
    reveal_strlit("kb:");
    reveal_strlit("owl:ObjectProperty");
    reveal_strlit("rdfs:domain");
    reveal_strlit("rdfs:range");
    reveal_strlit("rdfs:label");
    reveal_strlit("rdfs:comment");
    let s = ontology::parts()[9];
    let inverse = None::<Seq<char>>;
    let start = declarations::relation_start("tests"@, "kb:Hypothesis"@, "kb:Paper"@, inverse);
    assert(s.take(start.len() as int) =~= start);
    assert(s.skip(s.len() - 5) =~= seq!['"', ' ', '.', '\n', '\n']);
    declarations::lemma_relation(s, "tests"@, "kb:Hypothesis"@, "kb:Paper"@, inverse);
}

proof fn lemma_validates()
    ensures
        declarations::says(ontology::parts()[10], seq![("validates"@, None::<Seq<char>>)], Seq::empty()),
{
    reveal_strlit(
        r##"kb:validates a owl:ObjectProperty ;
    rdfs:domain kb:Experiment ;
    rdfs:range kb:Hypothesis ;
    rdfs:label "validates" ;
    rdfs:comment "an experiment produces evidence for or against a hypothesis" .

"##,
    );
    reveal_strlit("validates");
    reveal_strlit("kb:Experiment");
    reveal_strlit("kb:Hypothesis");
    reveal_strlit("kb:");
    reveal_strlit("owl:ObjectProperty");
    reveal_strlit("rdfs:domain");
    reveal_strlit("rdfs:range");
    reveal_strlit("rdfs:label");
    reveal_strlit("rdfs:comment");
    let s = ontology::parts()[10];
    let inverse = None::<Seq<char>>;
    let start = declarations::relation_start("validates"@, "kb:Experiment"@, "kb:Hypothesis"@, inverse);
    assert(s.take(start.len() as int) =~= start);
    assert(s.skip(s.len() - 5) =~= seq!['"', ' ', '.', '\n', '\n']);
    declarations::lemma_relation(s, "validates"@, "kb:Experiment"@, "kb:Hypothesis"@, inverse);
}

proof fn lemma_measures()
    ensures
        declarations::says(ontology::parts()[11], seq![("measures"@, None::<Seq<char>>)], Seq::empty()),
{
    reveal_strlit(
        r##"kb:measures a owl:ObjectProperty ;
    rdfs:domain kb:Measure ;
    rdfs:range kb:Experiment , kb:Hypothesis ;
    rdfs:label "measures" ;
    rdfs:comment "a measure tracks the outcome of an experiment (or, per current practice, a hypothesis)" .

"##,
    );
    reveal_strlit("measures");
    reveal_strlit("kb:Measure");
    reveal_strlit("kb:Experiment , kb:Hypothesis");
    reveal_strlit("kb:");
    reveal_strlit("owl:ObjectProperty");
    reveal_strlit("rdfs:domain");
    reveal_strlit("rdfs:range");
    reveal_strlit("rdfs:label");
    reveal_strlit("rdfs:comment");
    let s = ontology::parts()[11];
    let inverse = None::<Seq<char>>;
    let start = declarations::relation_start("measures"@, "kb:Measure"@, "kb:Experiment , kb:Hypothesis"@, inverse);
    assert(s.take(start.len() as int) =~= start);
    assert(s.skip(s.len() - 5) =~= seq!['"', ' ', '.', '\n', '\n']);
    declarations::lemma_relation(s, "measures"@, "kb:Measure"@, "kb:Experiment , kb:Hypothesis"@, inverse);
}

proof fn lemma_part_of()
    ensures
        declarations::says(ontology::parts()[12], seq![("partOf"@, Some("hasMember"@))], Seq::empty()),
{
    reveal_strlit(
        r##"kb:partOf a owl:ObjectProperty ;
    rdfs:domain kb:Item ;
    rdfs:range kb:Item ;
    owl:inverseOf kb:hasMember ;
    rdfs:label "partOf" ;
    rdfs:comment "this item is a member of the target" .

"##,
    );
    reveal_strlit("partOf");
    reveal_strlit("hasMember");
    reveal_strlit("kb:Item");
    reveal_strlit("kb:");
    reveal_strlit("owl:ObjectProperty");
    reveal_strlit("rdfs:domain");
    reveal_strlit("rdfs:range");
    reveal_strlit("owl:inverseOf");
    reveal_strlit("rdfs:label");
    reveal_strlit("rdfs:comment");
    let s = ontology::parts()[12];
    let inverse = Some("hasMember"@);
    let start = declarations::relation_start("partOf"@, "kb:Item"@, "kb:Item"@, inverse);
    assert(s.take(start.len() as int) =~= start);
    assert(s.skip(s.len() - 5) =~= seq!['"', ' ', '.', '\n', '\n']);
    declarations::lemma_relation(s, "partOf"@, "kb:Item"@, "kb:Item"@, inverse);
}

proof fn lemma_has_member()
    ensures
        declarations::says(ontology::parts()[13], seq![("hasMember"@, Some("partOf"@))], Seq::empty()),
{
    reveal_strlit(
        r##"kb:hasMember a owl:ObjectProperty ;
    rdfs:domain kb:Item ;
    rdfs:range kb:Item ;
    owl:inverseOf kb:partOf ;
    rdfs:label "hasMember" ;
    rdfs:comment "the target is a member of this item" .

"##,
    );
    reveal_strlit("hasMember");
    reveal_strlit("partOf");
    reveal_strlit("kb:Item");
    reveal_strlit("kb:");
    reveal_strlit("owl:ObjectProperty");
    reveal_strlit("rdfs:domain");
    reveal_strlit("rdfs:range");
    reveal_strlit("owl:inverseOf");
    reveal_strlit("rdfs:label");
    reveal_strlit("rdfs:comment");
    let s = ontology::parts()[13];
    let inverse = Some("partOf"@);
    let start = declarations::relation_start("hasMember"@, "kb:Item"@, "kb:Item"@, inverse);
    assert(s.take(start.len() as int) =~= start);
    assert(s.skip(s.len() - 5) =~= seq!['"', ' ', '.', '\n', '\n']);
    declarations::lemma_relation(s, "hasMember"@, "kb:Item"@, "kb:Item"@, inverse);
}

proof fn lemma_closes()
    ensures
        declarations::says(ontology::parts()[14], seq![("closes"@, Some("closedBy"@))], Seq::empty()),
{
    reveal_strlit(
        r##"kb:closes a owl:ObjectProperty ;
    rdfs:domain kb:Proposal ;
    rdfs:range kb:Item ;
    owl:inverseOf kb:closedBy ;
    rdfs:label "closes" ;
    rdfs:comment "a proposal closes an item" .

"##,
    );
    reveal_strlit("closes");
    reveal_strlit("closedBy");
    reveal_strlit("kb:Proposal");
    reveal_strlit("kb:Item");
    reveal_strlit("kb:");
    reveal_strlit("owl:ObjectProperty");
    reveal_strlit("rdfs:domain");
    reveal_strlit("rdfs:range");
    reveal_strlit("owl:inverseOf");
    reveal_strlit("rdfs:label");
    reveal_strlit("rdfs:comment");
    let s = ontology::parts()[14];
    let inverse = Some("closedBy"@);
    let start = declarations::relation_start("closes"@, "kb:Proposal"@, "kb:Item"@, inverse);
    assert(s.take(start.len() as int) =~= start);
    assert(s.skip(s.len() - 5) =~= seq!['"', ' ', '.', '\n', '\n']);
    declarations::lemma_relation(s, "closes"@, "kb:Proposal"@, "kb:Item"@, inverse);
}

proof fn lemma_closed_by()
    ensures
        declarations::says(ontology::parts()[15], seq![("closedBy"@, Some("closes"@))], Seq::empty()),
{
    reveal_strlit(
        r##"kb:closedBy a owl:ObjectProperty ;
    rdfs:domain kb:Item ;
    rdfs:range kb:Proposal ;
    owl:inverseOf kb:closes ;
    rdfs:label "closedBy" ;
    rdfs:comment "an item is closed by a proposal" .

"##,
    );
    reveal_strlit("closedBy");
    reveal_strlit("closes");
    reveal_strlit("kb:Item");
    reveal_strlit("kb:Proposal");
    reveal_strlit("kb:");
    reveal_strlit("owl:ObjectProperty");
    reveal_strlit("rdfs:domain");
    reveal_strlit("rdfs:range");
    reveal_strlit("owl:inverseOf");
    reveal_strlit("rdfs:label");
    reveal_strlit("rdfs:comment");
    let s = ontology::parts()[15];
    let inverse = Some("closes"@);
    let start = declarations::relation_start("closedBy"@, "kb:Item"@, "kb:Proposal"@, inverse);
    assert(s.take(start.len() as int) =~= start);
    assert(s.skip(s.len() - 5) =~= seq!['"', ' ', '.', '\n', '\n']);
    declarations::lemma_relation(s, "closedBy"@, "kb:Item"@, "kb:Proposal"@, inverse);
}

proof fn lemma_supersedes()
    ensures
        declarations::says(ontology::parts()[16], seq![("supersedes"@, Some("supersededBy"@))], Seq::empty()),
{
    reveal_strlit(
        r##"kb:supersedes a owl:ObjectProperty ;
    rdfs:domain kb:Item ;
    rdfs:range kb:Item ;
    owl:inverseOf kb:supersededBy ;
    rdfs:label "supersedes" ;
    rdfs:comment "this item takes the place of the target" .

"##,
    );
    reveal_strlit("supersedes");
    reveal_strlit("supersededBy");
    reveal_strlit("kb:Item");
    reveal_strlit("kb:");
    reveal_strlit("owl:ObjectProperty");
    reveal_strlit("rdfs:domain");
    reveal_strlit("rdfs:range");
    reveal_strlit("owl:inverseOf");
    reveal_strlit("rdfs:label");
    reveal_strlit("rdfs:comment");
    let s = ontology::parts()[16];
    let inverse = Some("supersededBy"@);
    let start = declarations::relation_start("supersedes"@, "kb:Item"@, "kb:Item"@, inverse);
    assert(s.take(start.len() as int) =~= start);
    assert(s.skip(s.len() - 5) =~= seq!['"', ' ', '.', '\n', '\n']);
    declarations::lemma_relation(s, "supersedes"@, "kb:Item"@, "kb:Item"@, inverse);
}

proof fn lemma_superseded_by()
    ensures
        declarations::says(ontology::parts()[17], seq![("supersededBy"@, Some("supersedes"@))], Seq::empty()),
{
    reveal_strlit(
        r##"kb:supersededBy a owl:ObjectProperty ;
    rdfs:domain kb:Item ;
    rdfs:range kb:Item ;
    owl:inverseOf kb:supersedes ;
    rdfs:label "supersededBy" ;
    rdfs:comment "the target takes the place of this item" .

"##,
    );
    reveal_strlit("supersededBy");
    reveal_strlit("supersedes");
    reveal_strlit("kb:Item");
    reveal_strlit("kb:");
    reveal_strlit("owl:ObjectProperty");
    reveal_strlit("rdfs:domain");
    reveal_strlit("rdfs:range");
    reveal_strlit("owl:inverseOf");
    reveal_strlit("rdfs:label");
    reveal_strlit("rdfs:comment");
    let s = ontology::parts()[17];
    let inverse = Some("supersedes"@);
    let start = declarations::relation_start("supersededBy"@, "kb:Item"@, "kb:Item"@, inverse);
    assert(s.take(start.len() as int) =~= start);
    assert(s.skip(s.len() - 5) =~= seq!['"', ' ', '.', '\n', '\n']);
    declarations::lemma_relation(s, "supersededBy"@, "kb:Item"@, "kb:Item"@, inverse);
}

proof fn lemma_leaves_remainder()
    ensures
        declarations::says(ontology::parts()[18], seq![("leavesRemainder"@, Some("remainderOf"@))], Seq::empty()),
{
    reveal_strlit(
        r##"kb:leavesRemainder a owl:ObjectProperty ;
    rdfs:domain kb:Item ;
    rdfs:range kb:Item ;
    owl:inverseOf kb:remainderOf ;
    rdfs:label "leavesRemainder" ;
    rdfs:comment "this item leaves work over for the target" .

"##,
    );
    reveal_strlit("leavesRemainder");
    reveal_strlit("remainderOf");
    reveal_strlit("kb:Item");
    reveal_strlit("kb:");
    reveal_strlit("owl:ObjectProperty");
    reveal_strlit("rdfs:domain");
    reveal_strlit("rdfs:range");
    reveal_strlit("owl:inverseOf");
    reveal_strlit("rdfs:label");
    reveal_strlit("rdfs:comment");
    let s = ontology::parts()[18];
    let inverse = Some("remainderOf"@);
    let start = declarations::relation_start("leavesRemainder"@, "kb:Item"@, "kb:Item"@, inverse);
    assert(s.take(start.len() as int) =~= start);
    assert(s.skip(s.len() - 5) =~= seq!['"', ' ', '.', '\n', '\n']);
    declarations::lemma_relation(s, "leavesRemainder"@, "kb:Item"@, "kb:Item"@, inverse);
}

proof fn lemma_remainder_of()
    ensures
        declarations::says(ontology::parts()[19], seq![("remainderOf"@, Some("leavesRemainder"@))], Seq::empty()),
{
    reveal_strlit(
        r##"kb:remainderOf a owl:ObjectProperty ;
    rdfs:domain kb:Item ;
    rdfs:range kb:Item ;
    owl:inverseOf kb:leavesRemainder ;
    rdfs:label "remainderOf" ;
    rdfs:comment "this item is work left over from the target" .

"##,
    );
    reveal_strlit("remainderOf");
    reveal_strlit("leavesRemainder");
    reveal_strlit("kb:Item");
    reveal_strlit("kb:");
    reveal_strlit("owl:ObjectProperty");
    reveal_strlit("rdfs:domain");
    reveal_strlit("rdfs:range");
    reveal_strlit("owl:inverseOf");
    reveal_strlit("rdfs:label");
    reveal_strlit("rdfs:comment");
    let s = ontology::parts()[19];
    let inverse = Some("leavesRemainder"@);
    let start = declarations::relation_start("remainderOf"@, "kb:Item"@, "kb:Item"@, inverse);
    assert(s.take(start.len() as int) =~= start);
    assert(s.skip(s.len() - 5) =~= seq!['"', ' ', '.', '\n', '\n']);
    declarations::lemma_relation(s, "remainderOf"@, "kb:Item"@, "kb:Item"@, inverse);
}

proof fn lemma_ruled_by()
    ensures
        declarations::says(ontology::parts()[20], seq![("ruledBy"@, Some("scopes"@))], Seq::empty()),
{
    reveal_strlit(
        r##"kb:ruledBy a owl:ObjectProperty ;
    rdfs:domain kb:Item ;
    rdfs:range kb:Item ;
    owl:inverseOf kb:scopes ;
    rdfs:label "ruledBy" ;
    rdfs:comment "the target decides about this item" .

"##,
    );
    reveal_strlit("ruledBy");
    reveal_strlit("scopes");
    reveal_strlit("kb:Item");
    reveal_strlit("kb:");
    reveal_strlit("owl:ObjectProperty");
    reveal_strlit("rdfs:domain");
    reveal_strlit("rdfs:range");
    reveal_strlit("owl:inverseOf");
    reveal_strlit("rdfs:label");
    reveal_strlit("rdfs:comment");
    let s = ontology::parts()[20];
    let inverse = Some("scopes"@);
    let start = declarations::relation_start("ruledBy"@, "kb:Item"@, "kb:Item"@, inverse);
    assert(s.take(start.len() as int) =~= start);
    assert(s.skip(s.len() - 5) =~= seq!['"', ' ', '.', '\n', '\n']);
    declarations::lemma_relation(s, "ruledBy"@, "kb:Item"@, "kb:Item"@, inverse);
}

proof fn lemma_scopes()
    ensures
        declarations::says(ontology::parts()[21], seq![("scopes"@, Some("ruledBy"@))], Seq::empty()),
{
    reveal_strlit(
        r##"kb:scopes a owl:ObjectProperty ;
    rdfs:domain kb:Item ;
    rdfs:range kb:Item ;
    owl:inverseOf kb:ruledBy ;
    rdfs:label "scopes" ;
    rdfs:comment "this item decides about the target" .

"##,
    );
    reveal_strlit("scopes");
    reveal_strlit("ruledBy");
    reveal_strlit("kb:Item");
    reveal_strlit("kb:");
    reveal_strlit("owl:ObjectProperty");
    reveal_strlit("rdfs:domain");
    reveal_strlit("rdfs:range");
    reveal_strlit("owl:inverseOf");
    reveal_strlit("rdfs:label");
    reveal_strlit("rdfs:comment");
    let s = ontology::parts()[21];
    let inverse = Some("ruledBy"@);
    let start = declarations::relation_start("scopes"@, "kb:Item"@, "kb:Item"@, inverse);
    assert(s.take(start.len() as int) =~= start);
    assert(s.skip(s.len() - 5) =~= seq!['"', ' ', '.', '\n', '\n']);
    declarations::lemma_relation(s, "scopes"@, "kb:Item"@, "kb:Item"@, inverse);
}

proof fn lemma_comment_on()
    ensures
        declarations::says(ontology::parts()[22], seq![("commentOn"@, None::<Seq<char>>)], Seq::empty()),
{
    reveal_strlit(
        r##"kb:commentOn a owl:ObjectProperty ;
    rdfs:domain kb:Comment ;
    rdfs:range kb:Item ;
    rdfs:label "commentOn" ;
    rdfs:comment "a comment is about an item" .

"##,
    );
    reveal_strlit("commentOn");
    reveal_strlit("kb:Comment");
    reveal_strlit("kb:Item");
    reveal_strlit("kb:");
    reveal_strlit("owl:ObjectProperty");
    reveal_strlit("rdfs:domain");
    reveal_strlit("rdfs:range");
    reveal_strlit("rdfs:label");
    reveal_strlit("rdfs:comment");
    let s = ontology::parts()[22];
    let inverse = None::<Seq<char>>;
    let start = declarations::relation_start("commentOn"@, "kb:Comment"@, "kb:Item"@, inverse);
    assert(s.take(start.len() as int) =~= start);
    assert(s.skip(s.len() - 5) =~= seq!['"', ' ', '.', '\n', '\n']);
    declarations::lemma_relation(s, "commentOn"@, "kb:Comment"@, "kb:Item"@, inverse);
}

proof fn lemma_evaluates()
    ensures
        declarations::says(ontology::parts()[23], seq![("evaluates"@, None::<Seq<char>>)], Seq::empty()),
{
    reveal_strlit(
        r##"kb:evaluates a owl:ObjectProperty ;
    rdfs:domain kb:CIResult ;
    rdfs:range kb:Proposal ;
    rdfs:label "evaluates" ;
    rdfs:comment "a CI result evaluates a proposal" .

"##,
    );
    reveal_strlit("evaluates");
    reveal_strlit("kb:CIResult");
    reveal_strlit("kb:Proposal");
    reveal_strlit("kb:");
    reveal_strlit("owl:ObjectProperty");
    reveal_strlit("rdfs:domain");
    reveal_strlit("rdfs:range");
    reveal_strlit("rdfs:label");
    reveal_strlit("rdfs:comment");
    let s = ontology::parts()[23];
    let inverse = None::<Seq<char>>;
    let start = declarations::relation_start("evaluates"@, "kb:CIResult"@, "kb:Proposal"@, inverse);
    assert(s.take(start.len() as int) =~= start);
    assert(s.skip(s.len() - 5) =~= seq!['"', ' ', '.', '\n', '\n']);
    declarations::lemma_relation(s, "evaluates"@, "kb:CIResult"@, "kb:Proposal"@, inverse);
}

proof fn lemma_transitions()
    ensures
        declarations::says(ontology::parts()[24], seq![("transitions"@, None::<Seq<char>>)], Seq::empty()),
{
    reveal_strlit(
        r##"kb:transitions a owl:ObjectProperty ;
    rdfs:domain kb:Run ;
    rdfs:range kb:Item ;
    rdfs:label "transitions" ;
    rdfs:comment "a run moves an item from one state to another" .

"##,
    );
    reveal_strlit("transitions");
    reveal_strlit("kb:Run");
    reveal_strlit("kb:Item");
    reveal_strlit("kb:");
    reveal_strlit("owl:ObjectProperty");
    reveal_strlit("rdfs:domain");
    reveal_strlit("rdfs:range");
    reveal_strlit("rdfs:label");
    reveal_strlit("rdfs:comment");
    let s = ontology::parts()[24];
    let inverse = None::<Seq<char>>;
    let start = declarations::relation_start("transitions"@, "kb:Run"@, "kb:Item"@, inverse);
    assert(s.take(start.len() as int) =~= start);
    assert(s.skip(s.len() - 5) =~= seq!['"', ' ', '.', '\n', '\n']);
    declarations::lemma_relation(s, "transitions"@, "kb:Run"@, "kb:Item"@, inverse);
}

proof fn lemma_states_heading()
    ensures
        declarations::says(ontology::parts()[25], Seq::empty(), Seq::empty()),
{
    reveal_strlit("# LIFECYCLE STATES + TRANSITIONS\n\n");
    let s = ontology::parts()[25];
    let line = s.take(s.len() - 2);
    assert(s =~= line + seq!['\n', '\n']);
    reading::lemma_comment(line);
    assert(declarations::pairs_of(Seq::empty()) =~= Seq::<Pair>::empty());
    assert(declarations::names_of(Seq::empty()) =~= Seq::<Seq<char>>::empty());
    assert(reading::reads_as(s, Seq::empty()));
}

proof fn lemma_backlog()
    ensures
        declarations::says(ontology::parts()[26], Seq::empty(), seq!["backlog"@]),
{
    reveal_strlit(
        r##"kb:backlog a kb:LifecycleState ;
    kb:board "development" ;
    rdfs:label "backlog" ;
    rdfs:comment "raw intake" ;
    kb:transitionsTo kb:planning , kb:in_progress , kb:done , kb:stale .

"##,
    );
    reveal_strlit("backlog");
    reveal_strlit("kb:planning , kb:in_progress , kb:done , kb:stale");
    reveal_strlit("kb:");
    reveal_strlit("kb:LifecycleState");
    reveal_strlit("kb:board");
    reveal_strlit("development");
    reveal_strlit("rdfs:label");
    reveal_strlit("rdfs:comment");
    reveal_strlit("kb:transitionsTo");
    let s = ontology::parts()[26];
    let targets = "kb:planning , kb:in_progress , kb:done , kb:stale"@;
    let start = declarations::state_start("backlog"@);
    let end = declarations::state_end(targets);
    assert(s.take(start.len() as int) =~= start);
    assert(s.skip(s.len() - end.len()) =~= end);
    declarations::lemma_state(s, "backlog"@, targets);
}

proof fn lemma_planning()
    ensures
        declarations::says(ontology::parts()[27], Seq::empty(), seq!["planning"@]),
{
    reveal_strlit(
        r##"kb:planning a kb:LifecycleState ;
    kb:board "development" ;
    rdfs:label "planning" ;
    rdfs:comment "being planned, not to be claimed yet" ;
    kb:transitionsTo kb:ready , kb:backlog , kb:stale .

"##,
    );
    reveal_strlit("planning");
    reveal_strlit("kb:ready , kb:backlog , kb:stale");
    reveal_strlit("kb:");
    reveal_strlit("kb:LifecycleState");
    reveal_strlit("kb:board");
    reveal_strlit("development");
    reveal_strlit("rdfs:label");
    reveal_strlit("rdfs:comment");
    reveal_strlit("kb:transitionsTo");
    let s = ontology::parts()[27];
    let targets = "kb:ready , kb:backlog , kb:stale"@;
    let start = declarations::state_start("planning"@);
    let end = declarations::state_end(targets);
    assert(s.take(start.len() as int) =~= start);
    assert(s.skip(s.len() - end.len()) =~= end);
    declarations::lemma_state(s, "planning"@, targets);
}

proof fn lemma_ready()
    ensures
        declarations::says(ontology::parts()[28], Seq::empty(), seq!["ready"@]),
{
    reveal_strlit(
        r##"kb:ready a kb:LifecycleState ;
    kb:board "development" ;
    rdfs:label "ready" ;
    rdfs:comment "planned and released for work" ;
    kb:transitionsTo kb:in_progress , kb:planning .

"##,
    );
    reveal_strlit("ready");
    reveal_strlit("kb:in_progress , kb:planning");
    reveal_strlit("kb:");
    reveal_strlit("kb:LifecycleState");
    reveal_strlit("kb:board");
    reveal_strlit("development");
    reveal_strlit("rdfs:label");
    reveal_strlit("rdfs:comment");
    reveal_strlit("kb:transitionsTo");
    let s = ontology::parts()[28];
    let targets = "kb:in_progress , kb:planning"@;
    let start = declarations::state_start("ready"@);
    let end = declarations::state_end(targets);
    assert(s.take(start.len() as int) =~= start);
    assert(s.skip(s.len() - end.len()) =~= end);
    declarations::lemma_state(s, "ready"@, targets);
}

proof fn lemma_in_progress()
    ensures
        declarations::says(ontology::parts()[29], Seq::empty(), seq!["in_progress"@]),
{
    reveal_strlit(
        r##"kb:in_progress a kb:LifecycleState ;
    kb:board "development" ;
    rdfs:label "in_progress" ;
    rdfs:comment "claimed and being built" ;
    kb:transitionsTo kb:review , kb:backlog , kb:done .

"##,
    );
    reveal_strlit("in_progress");
    reveal_strlit("kb:review , kb:backlog , kb:done");
    reveal_strlit("kb:");
    reveal_strlit("kb:LifecycleState");
    reveal_strlit("kb:board");
    reveal_strlit("development");
    reveal_strlit("rdfs:label");
    reveal_strlit("rdfs:comment");
    reveal_strlit("kb:transitionsTo");
    let s = ontology::parts()[29];
    let targets = "kb:review , kb:backlog , kb:done"@;
    let start = declarations::state_start("in_progress"@);
    let end = declarations::state_end(targets);
    assert(s.take(start.len() as int) =~= start);
    assert(s.skip(s.len() - end.len()) =~= end);
    declarations::lemma_state(s, "in_progress"@, targets);
}

proof fn lemma_review()
    ensures
        declarations::says(ontology::parts()[30], Seq::empty(), seq!["review"@]),
{
    reveal_strlit(
        r##"kb:review a kb:LifecycleState ;
    kb:board "development" ;
    rdfs:label "review" ;
    rdfs:comment "under review by another agent" ;
    kb:transitionsTo kb:done , kb:in_progress .

"##,
    );
    reveal_strlit("review");
    reveal_strlit("kb:done , kb:in_progress");
    reveal_strlit("kb:");
    reveal_strlit("kb:LifecycleState");
    reveal_strlit("kb:board");
    reveal_strlit("development");
    reveal_strlit("rdfs:label");
    reveal_strlit("rdfs:comment");
    reveal_strlit("kb:transitionsTo");
    let s = ontology::parts()[30];
    let targets = "kb:done , kb:in_progress"@;
    let start = declarations::state_start("review"@);
    let end = declarations::state_end(targets);
    assert(s.take(start.len() as int) =~= start);
    assert(s.skip(s.len() - end.len()) =~= end);
    declarations::lemma_state(s, "review"@, targets);
}

proof fn lemma_done()
    ensures
        declarations::says(ontology::parts()[31], Seq::empty(), seq!["done"@]),
{
    reveal_strlit(
        r##"kb:done a kb:LifecycleState ;
    kb:board "development" ;
    rdfs:label "done" ;
    rdfs:comment "terminal, with a resolution" ;
    kb:transitionsTo kb:backlog .

"##,
    );
    reveal_strlit("done");
    reveal_strlit("kb:backlog");
    reveal_strlit("kb:");
    reveal_strlit("kb:LifecycleState");
    reveal_strlit("kb:board");
    reveal_strlit("development");
    reveal_strlit("rdfs:label");
    reveal_strlit("rdfs:comment");
    reveal_strlit("kb:transitionsTo");
    let s = ontology::parts()[31];
    let targets = "kb:backlog"@;
    let start = declarations::state_start("done"@);
    let end = declarations::state_end(targets);
    assert(s.take(start.len() as int) =~= start);
    assert(s.skip(s.len() - end.len()) =~= end);
    declarations::lemma_state(s, "done"@, targets);
}

proof fn lemma_stale()
    ensures
        declarations::says(ontology::parts()[32], Seq::empty(), seq!["stale"@]),
{
    reveal_strlit(
        r##"kb:stale a kb:LifecycleState ;
    kb:board "development" ;
    rdfs:label "stale" ;
    rdfs:comment "parked by an operator" ;
    kb:transitionsTo kb:backlog .

"##,
    );
    reveal_strlit("stale");
    reveal_strlit("kb:backlog");
    reveal_strlit("kb:");
    reveal_strlit("kb:LifecycleState");
    reveal_strlit("kb:board");
    reveal_strlit("development");
    reveal_strlit("rdfs:label");
    reveal_strlit("rdfs:comment");
    reveal_strlit("kb:transitionsTo");
    let s = ontology::parts()[32];
    let targets = "kb:backlog"@;
    let start = declarations::state_start("stale"@);
    let end = declarations::state_end(targets);
    assert(s.take(start.len() as int) =~= start);
    assert(s.skip(s.len() - end.len()) =~= end);
    declarations::lemma_state(s, "stale"@, targets);
}

// ---- the ontology as a whole -----------------------------------------------------------------------

/// The names and inverses of the relations that the ontology declares.
pub open spec fn relation_pairs() -> Seq<Pair> {
    seq![
        ("related"@, None),
        ("dependsOn"@, Some("blocks"@)),
        ("blocks"@, Some("dependsOn"@)),
        ("parent"@, None),
        ("implements"@, Some("spawns"@)),
        ("spawns"@, Some("implements"@)),
        ("tests"@, None),
        ("validates"@, None),
        ("measures"@, None),
        ("partOf"@, Some("hasMember"@)),
        ("hasMember"@, Some("partOf"@)),
        ("closes"@, Some("closedBy"@)),
        ("closedBy"@, Some("closes"@)),
        ("supersedes"@, Some("supersededBy"@)),
        ("supersededBy"@, Some("supersedes"@)),
        ("leavesRemainder"@, Some("remainderOf"@)),
        ("remainderOf"@, Some("leavesRemainder"@)),
        ("ruledBy"@, Some("scopes"@)),
        ("scopes"@, Some("ruledBy"@)),
        ("commentOn"@, None),
        ("evaluates"@, None),
        ("transitions"@, None),
    ]
}

/// The names of the states that the ontology declares.
pub open spec fn state_names() -> Seq<Seq<char>> {
    seq![
        "backlog"@,
        "planning"@,
        "ready"@,
        "in_progress"@,
        "review"@,
        "done"@,
        "stale"@,
    ]
}

/// The relation that a part declares, if it declares one.
spec fn pairs_at(i: int) -> Seq<Pair> {
    if 3 <= i < 25 {
        seq![relation_pairs()[i - 3]]
    } else {
        Seq::empty()
    }
}

/// The state that a part declares, if it declares one.
spec fn names_at(i: int) -> Seq<Seq<char>> {
    if 26 <= i < 33 {
        seq![state_names()[i - 26]]
    } else {
        Seq::empty()
    }
}

/// The relations that the first `n` parts declare.
spec fn pairs_before(n: int) -> Seq<Pair> {
    if n <= 3 {
        Seq::empty()
    } else if n <= 25 {
        relation_pairs().take(n - 3)
    } else {
        relation_pairs()
    }
}

/// The states that the first `n` parts declare.
spec fn names_before(n: int) -> Seq<Seq<char>> {
    if n <= 26 {
        Seq::empty()
    } else {
        state_names().take(n - 26)
    }
}

proof fn lemma_part(i: int)
    requires
        0 <= i < 33,
    ensures
        declarations::says(ontology::parts()[i], pairs_at(i), names_at(i)),
{
    if i == 0 {
        lemma_items();
    } else if i == 1 {
        lemma_research_items();
    } else if i == 2 {
        lemma_other_kinds();
    } else if i < 25 {
        lemma_relation_part(i);
    } else if i == 25 {
        lemma_states_heading();
    } else {
        lemma_state_part(i);
    }
}

proof fn lemma_relation_part(i: int)
    requires
        3 <= i < 25,
    ensures
        declarations::says(ontology::parts()[i], seq![relation_pairs()[i - 3]], Seq::empty()),
{
    if i == 3 {
        lemma_related();
    } else if i == 4 {
        lemma_depends_on();
    } else if i == 5 {
        lemma_blocks();
    } else if i == 6 {
        lemma_parent();
    } else if i == 7 {
        lemma_implements();
    } else if i == 8 {
        lemma_spawns();
    } else if i == 9 {
        lemma_tests();
    } else if i == 10 {
        lemma_validates();
    } else if i == 11 {
        lemma_measures();
    } else if i == 12 {
        lemma_part_of();
    } else if i == 13 {
        lemma_has_member();
    } else if i == 14 {
        lemma_closes();
    } else if i == 15 {
        lemma_closed_by();
    } else if i == 16 {
        lemma_supersedes();
    } else if i == 17 {
        lemma_superseded_by();
    } else if i == 18 {
        lemma_leaves_remainder();
    } else if i == 19 {
        lemma_remainder_of();
    } else if i == 20 {
        lemma_ruled_by();
    } else if i == 21 {
        lemma_scopes();
    } else if i == 22 {
        lemma_comment_on();
    } else if i == 23 {
        lemma_evaluates();
    } else {
        lemma_transitions();
    }
}

proof fn lemma_state_part(i: int)
    requires
        26 <= i < 33,
    ensures
        declarations::says(ontology::parts()[i], Seq::empty(), seq![state_names()[i - 26]]),
{
    if i == 26 {
        lemma_backlog();
    } else if i == 27 {
        lemma_planning();
    } else if i == 28 {
        lemma_ready();
    } else if i == 29 {
        lemma_in_progress();
    } else if i == 30 {
        lemma_review();
    } else if i == 31 {
        lemma_done();
    } else {
        lemma_stale();
    }
}

proof fn lemma_first_parts(n: nat)
    requires
        n <= 33,
    ensures
        declarations::says(ontology::joined(ontology::parts(), n), pairs_before(n as int), names_before(n as int)),
    decreases n,
{
    if n == 0 {
        let none = Seq::<char>::empty();
        assert(text::split_spec(none, '\n') == seq![none]);
        assert(text::lines_spec(none) =~= Seq::<Seq<char>>::empty());
        assert(declarations::pairs_of(Seq::empty()) =~= Seq::<Pair>::empty());
        assert(declarations::names_of(Seq::empty()) =~= Seq::<Seq<char>>::empty());
        assert(reading::reads_as(none, Seq::empty()));
    } else {
        let m = n - 1;
        lemma_first_parts(m as nat);
        lemma_part(m);
        declarations::lemma_says_append(
            ontology::joined(ontology::parts(), m as nat),
            pairs_before(m),
            names_before(m),
            ontology::parts()[m],
            pairs_at(m),
            names_at(m),
        );
        assert(pairs_before(m) + pairs_at(m) =~= pairs_before(n as int));
        assert(names_before(m) + names_at(m) =~= names_before(n as int));
    }
}

/// What can be read of the ontology are these relations and states.
proof fn lemma_ontology()
    ensures
        match relation_vocab::properties_spec(ontology::kanban_text()) {
            Ok(list) => declarations::pairs_of(list) == relation_pairs(),
            Err(_) => true,
        },
        match state_model::states_spec(ontology::kanban_text()) {
            Ok(list) => declarations::names_of(list) == state_names(),
            Err(_) => true,
        },
{
    let s = ontology::kanban_text();
    lemma_first_parts(33);
    let statements = choose|statements: Seq<Seq<char>>| #[trigger]
        reading::reads_as(s, statements) && declarations::declare_relations(statements, relation_pairs())
            && declarations::declare_states(statements, names_before(33));
    assert(names_before(33) =~= state_names());
    assert(text::trim_spec(Seq::<char>::empty()).len() == 0);
    assert(turtle::statements_spec(s) == Ok::<Seq<Seq<char>>, Seq<char>>(statements));
}

/// Every state of the board is a status that can be looked for.
pub proof fn law_states_are_statuses()
    ensures
        state_machine::states_are_statuses(state_model::model_spec(ontology::kanban_text())),
{
    let model = state_model::model_spec(ontology::kanban_text());
    lemma_ontology();
    state_machine::law_fixed_states_are_statuses();
    if model != state_model::fallback_spec() {
        let all = state_machine::statuses();
        assert(model.len() == declarations::names_of(model).len() == 7);
        assert(all[0] == "backlog"@);
        assert(all[16] == "planning"@);
        assert(all[17] == "ready"@);
        assert(all[1] == "in_progress"@);
        assert(all[2] == "review"@);
        assert(all[3] == "done"@);
        assert(all[18] == "stale"@);
        assert forall|i: int| 0 <= i < model.len() implies all.contains(
            (#[trigger] model[i]).name,
        ) by {
            assert(declarations::names_of(model)[i] == model[i].name);
            let name = state_names()[i];
            assert(name == model[i].name);
            assert(name == "backlog"@ || name == "planning"@ || name == "ready"@ || name
                == "in_progress"@ || name == "review"@ || name == "done"@ || name == "stale"@);
        }
    }
}

/// Whether a name is of letters, the first two and the last of them small.
spec fn is_named(s: Seq<char>) -> bool {
    &&& s.len() >= 2
    &&& 'a' <= s[0] <= 'z'
    &&& 'a' <= s[1] <= 'z'
    &&& 'a' <= s.last() <= 'z'
    &&& forall|i: int|
        0 <= i < s.len() ==> 'A' <= (#[trigger] s[i]) <= 'Z' || 'a' <= s[i] <= 'z'
}

/// What tells a name from others.
spec fn mark(s: Seq<char>) -> (nat, char, char, char) {
    (s.len(), s[0], s[1], s.last())
}

/// Names with different marks differ in small letters too.
proof fn lemma_differ(a: Seq<char>, b: Seq<char>)
    requires
        is_named(a),
        is_named(b),
        mark(a) != mark(b),
    ensures
        text::lower_spec(a) != text::lower_spec(b),
{
    let x = text::lower_spec(a);
    let y = text::lower_spec(b);
    assert(x.len() == a.len() && y.len() == b.len());
    assert(x[0] == a[0] && x[1] == a[1] && x.last() == a.last());
    assert(y[0] == b[0] && y[1] == b[1] && y.last() == b.last());
}

proof fn lemma_names()
    ensures
        is_named("related"@) && mark("related"@) == (7nat, 'r', 'e', 'd'),
        is_named("dependsOn"@) && mark("dependsOn"@) == (9nat, 'd', 'e', 'n'),
        is_named("blocks"@) && mark("blocks"@) == (6nat, 'b', 'l', 's'),
        is_named("parent"@) && mark("parent"@) == (6nat, 'p', 'a', 't'),
        is_named("implements"@) && mark("implements"@) == (10nat, 'i', 'm', 's'),
        is_named("spawns"@) && mark("spawns"@) == (6nat, 's', 'p', 's'),
        is_named("tests"@) && mark("tests"@) == (5nat, 't', 'e', 's'),
        is_named("validates"@) && mark("validates"@) == (9nat, 'v', 'a', 's'),
        is_named("measures"@) && mark("measures"@) == (8nat, 'm', 'e', 's'),
        is_named("partOf"@) && mark("partOf"@) == (6nat, 'p', 'a', 'f'),
        is_named("hasMember"@) && mark("hasMember"@) == (9nat, 'h', 'a', 'r'),
        is_named("closes"@) && mark("closes"@) == (6nat, 'c', 'l', 's'),
        is_named("closedBy"@) && mark("closedBy"@) == (8nat, 'c', 'l', 'y'),
        is_named("supersedes"@) && mark("supersedes"@) == (10nat, 's', 'u', 's'),
        is_named("supersededBy"@) && mark("supersededBy"@) == (12nat, 's', 'u', 'y'),
        is_named("leavesRemainder"@) && mark("leavesRemainder"@) == (15nat, 'l', 'e', 'r'),
        is_named("remainderOf"@) && mark("remainderOf"@) == (11nat, 'r', 'e', 'f'),
        is_named("ruledBy"@) && mark("ruledBy"@) == (7nat, 'r', 'u', 'y'),
        is_named("scopes"@) && mark("scopes"@) == (6nat, 's', 'c', 's'),
        is_named("commentOn"@) && mark("commentOn"@) == (9nat, 'c', 'o', 'n'),
        is_named("evaluates"@) && mark("evaluates"@) == (9nat, 'e', 'v', 's'),
        is_named("transitions"@) && mark("transitions"@) == (11nat, 't', 'r', 's'),
{
    reveal_strlit("related");
    reveal_strlit("dependsOn");
    reveal_strlit("blocks");
    reveal_strlit("parent");
    reveal_strlit("implements");
    reveal_strlit("spawns");
    reveal_strlit("tests");
    reveal_strlit("validates");
    reveal_strlit("measures");
    reveal_strlit("partOf");
    reveal_strlit("hasMember");
    reveal_strlit("closes");
    reveal_strlit("closedBy");
    reveal_strlit("supersedes");
    reveal_strlit("supersededBy");
    reveal_strlit("leavesRemainder");
    reveal_strlit("remainderOf");
    reveal_strlit("ruledBy");
    reveal_strlit("scopes");
    reveal_strlit("commentOn");
    reveal_strlit("evaluates");
    reveal_strlit("transitions");
}

/// The relations of the ontology are found under their names.
proof fn lemma_found(vocab: Seq<PredicateView>, k: int)
    requires
        declarations::pairs_of(vocab) == relation_pairs(),
        0 <= k < 22,
    ensures
        relation_vocab::lookup_spec(vocab, vocab[k].name) == Some(vocab[k]),
{
    lemma_names();
    assert(declarations::pairs_of(vocab).len() == relation_pairs().len() == 22);
    let name = relation_pairs()[k].0;
    assert(declarations::pairs_of(vocab)[k].0 == vocab[k].name);
    assert(is_named(name));
    relation_vocab::lemma_letters(name);
    assert forall|j: int| 0 <= j < k implies text::lower_spec((#[trigger] vocab[j]).name)
        != relation_vocab::plain_name(name) by {
        assert(declarations::pairs_of(vocab)[j].0 == vocab[j].name);
        let other = relation_pairs()[j].0;
        assert(is_named(other));
        assert(mark(other) != mark(name));
        lemma_differ(other, name);
    }
    relation_vocab::lemma_position_of(vocab, name, k);
}

/// Where the inverse of a relation stands.
spec fn other_end(i: int) -> int {
    if i == 1 {
        2
    } else if i == 2 {
        1
    } else if i == 4 {
        5
    } else if i == 5 {
        4
    } else if i == 9 {
        10
    } else if i == 10 {
        9
    } else if i == 11 {
        12
    } else if i == 12 {
        11
    } else if i == 13 {
        14
    } else if i == 14 {
        13
    } else if i == 15 {
        16
    } else if i == 16 {
        15
    } else if i == 17 {
        18
    } else if i == 18 {
        17
    } else {
        i
    }
}

/// The relations of the board name each other as inverses: the inverse of a relation's
/// inverse is that relation.
pub proof fn law_inverses_agree()
    ensures
        relation_vocab::inverses_agree(relation_vocab::vocabulary_spec(ontology::kanban_text())),
{
    let vocab = relation_vocab::vocabulary_spec(ontology::kanban_text());
    lemma_ontology();
    relation_vocab::law_fixed_inverses_agree();
    if vocab != relation_vocab::fallback_spec() {
        let pairs = relation_pairs();
        assert(declarations::pairs_of(vocab) == pairs);
        assert forall|i: int|
            0 <= i < vocab.len() && (#[trigger] vocab[i]).inverse is Some implies
            relation_vocab::points_back(vocab, i) by {
            assert(declarations::pairs_of(vocab)[i] == (vocab[i].name, vocab[i].inverse));
            let k = other_end(i);
            assert(pairs[i].1 == Some(pairs[k].0) && pairs[k].1 == Some(pairs[i].0));
            assert(declarations::pairs_of(vocab)[k] == (vocab[k].name, vocab[k].inverse));
            lemma_found(vocab, k);
        }
    }
}

} // verus!
