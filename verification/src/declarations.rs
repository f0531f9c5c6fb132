//! What is sure to be read from texts of a known shape: the declarations of relations and
//! of states.
use vstd::prelude::*;
use crate::reading;
use crate::relation_vocab;
use crate::relation_vocab::{PredicateView, PropertyView};
use crate::state_model;
use crate::state_model::{DeclarationView, StateView};
use crate::text;
use crate::turtle;

verus! {

// ---- what a text says -----------------------------------------------------------------------------

/// The name of a relation and that of its inverse.
pub type Pair = (Seq<char>, Option<Seq<char>>);

pub open spec fn pairs_of(list: Seq<PredicateView>) -> Seq<Pair> {
    Seq::new(list.len(), |i: int| (list[i].name, list[i].inverse))
}

pub open spec fn names_of(list: Seq<StateView>) -> Seq<Seq<char>> {
    Seq::new(list.len(), |i: int| list[i].name)
}

/// Whether statements, if they can be read as relations, declare relations with these names
/// and inverses.
pub open spec fn declare_relations(statements: Seq<Seq<char>>, pairs: Seq<Pair>) -> bool {
    match relation_vocab::declared_properties(statements, statements.len()) {
        Ok(list) => pairs_of(list) == pairs,
        Err(_) => true,
    }
}

/// Whether statements, if they can be read as states, declare states with these names.
pub open spec fn declare_states(statements: Seq<Seq<char>>, names: Seq<Seq<char>>) -> bool {
    match state_model::declared_states(statements, statements.len()) {
        Ok(list) => names_of(list) == names,
        Err(_) => true,
    }
}

/// Whether a text is read as statements that declare these relations and states.
pub open spec fn says(s: Seq<char>, pairs: Seq<Pair>, names: Seq<Seq<char>>) -> bool {
    exists|statements: Seq<Seq<char>>| #[trigger]
        reading::reads_as(s, statements) && declare_relations(statements, pairs) && declare_states(
            statements,
            names,
        )
}

proof fn lemma_first_properties(x: Seq<Seq<char>>, y: Seq<Seq<char>>, n: nat)
    requires
        n <= x.len(),
    ensures
        relation_vocab::declared_properties(x + y, n) == relation_vocab::declared_properties(x, n),
    decreases n,
{
    if n > 0 {
        lemma_first_properties(x, y, (n - 1) as nat);
        assert((x + y)[n - 1] == x[n - 1]);
    }
}

proof fn lemma_properties_append(x: Seq<Seq<char>>, y: Seq<Seq<char>>, n: nat)
    requires
        n <= y.len(),
        relation_vocab::declared_properties(x + y, x.len() + n) is Ok,
    ensures
        relation_vocab::declared_properties(x, x.len()) is Ok,
        relation_vocab::declared_properties(y, n) is Ok,
        relation_vocab::declared_properties(x + y, x.len() + n)->Ok_0
            == relation_vocab::declared_properties(x, x.len())->Ok_0
            + relation_vocab::declared_properties(y, n)->Ok_0,
    decreases n,
{
    if n == 0 {
        lemma_first_properties(x, y, x.len());
        let list = relation_vocab::declared_properties(x, x.len())->Ok_0;
        assert(list + Seq::<PredicateView>::empty() =~= list);
    } else {
        let m = (n - 1) as nat;
        assert((x.len() + n - 1) as nat == x.len() + m);
        assert((x + y)[x.len() + n - 1] == y[n - 1]);
        lemma_properties_append(x, y, m);
        let a = relation_vocab::declared_properties(x, x.len())->Ok_0;
        let b = relation_vocab::declared_properties(y, m)->Ok_0;
        if let Ok(Some(p)) = relation_vocab::property_of(y[n - 1]) {
            assert((a + b).push(p) =~= a + b.push(p));
        }
    }
}

proof fn lemma_first_states(x: Seq<Seq<char>>, y: Seq<Seq<char>>, n: nat)
    requires
        n <= x.len(),
    ensures
        state_model::declared_states(x + y, n) == state_model::declared_states(x, n),
    decreases n,
{
    if n > 0 {
        lemma_first_states(x, y, (n - 1) as nat);
        assert((x + y)[n - 1] == x[n - 1]);
    }
}

proof fn lemma_states_append(x: Seq<Seq<char>>, y: Seq<Seq<char>>, n: nat)
    requires
        n <= y.len(),
        state_model::declared_states(x + y, x.len() + n) is Ok,
    ensures
        state_model::declared_states(x, x.len()) is Ok,
        state_model::declared_states(y, n) is Ok,
        state_model::declared_states(x + y, x.len() + n)->Ok_0 == state_model::declared_states(
            x,
            x.len(),
        )->Ok_0 + state_model::declared_states(y, n)->Ok_0,
    decreases n,
{
    if n == 0 {
        lemma_first_states(x, y, x.len());
        let list = state_model::declared_states(x, x.len())->Ok_0;
        assert(list + Seq::<StateView>::empty() =~= list);
    } else {
        let m = (n - 1) as nat;
        assert((x.len() + n - 1) as nat == x.len() + m);
        assert((x + y)[x.len() + n - 1] == y[n - 1]);
        lemma_states_append(x, y, m);
        let a = state_model::declared_states(x, x.len())->Ok_0;
        let b = state_model::declared_states(y, m)->Ok_0;
        if let Ok(Some(s)) = state_model::state_of(y[n - 1]) {
            assert((a + b).push(s) =~= a + b.push(s));
        }
    }
}

pub proof fn lemma_says_append(
    a: Seq<char>,
    pairs_a: Seq<Pair>,
    names_a: Seq<Seq<char>>,
    b: Seq<char>,
    pairs_b: Seq<Pair>,
    names_b: Seq<Seq<char>>,
)
    requires
        says(a, pairs_a, names_a),
        says(b, pairs_b, names_b),
    ensures
        says(a + b, pairs_a + pairs_b, names_a + names_b),
{
    let x = choose|statements: Seq<Seq<char>>| #[trigger]
        reading::reads_as(a, statements) && declare_relations(statements, pairs_a)
            && declare_states(statements, names_a);
    let y = choose|statements: Seq<Seq<char>>| #[trigger]
        reading::reads_as(b, statements) && declare_relations(statements, pairs_b)
            && declare_states(statements, names_b);
    reading::lemma_reads_append(a, x, b, y);
    let all = x + y;
    assert(all.len() == x.len() + y.len());
    if let Ok(list) = relation_vocab::declared_properties(all, all.len()) {
        lemma_properties_append(x, y, y.len());
        assert(pairs_of(list) =~= pairs_a + pairs_b);
    }
    if let Ok(list) = state_model::declared_states(all, all.len()) {
        lemma_states_append(x, y, y.len());
        assert(names_of(list) =~= names_a + names_b);
    }
    assert(reading::reads_as(a + b, all));
}

/// Statements whose heads lack a letter of what declares a relation, and one of what
/// declares a state, declare nothing.
proof fn lemma_no_declarations(statements: Seq<Seq<char>>, i: int, k: int, n: nat)
    requires
        n <= statements.len(),
        0 <= i < "owl:ObjectProperty"@.len(),
        0 <= k < "kb:LifecycleState"@.len(),
        forall|j: int|
            0 <= j < statements.len() ==> reading::lacks(
                turtle::head_spec(#[trigger] statements[j]),
                "owl:ObjectProperty"@[i],
            ),
        forall|j: int|
            0 <= j < statements.len() ==> reading::lacks(
                turtle::head_spec(#[trigger] statements[j]),
                "kb:LifecycleState"@[k],
            ),
    ensures
        relation_vocab::declared_properties(statements, n) == Ok::<Seq<PredicateView>, Seq<char>>(
            Seq::empty(),
        ),
        state_model::declared_states(statements, n) == Ok::<Seq<StateView>, Seq<char>>(
            Seq::empty(),
        ),
    decreases n,
{
    if n > 0 {
        lemma_no_declarations(statements, i, k, (n - 1) as nat);
        let head = turtle::head_spec(statements[n - 1]);
        reading::lemma_not_contained(head, "owl:ObjectProperty"@, i);
        reading::lemma_not_contained(head, "kb:LifecycleState"@, k);
    }
}

/// A text that lacks a letter of what declares a relation, and one of what declares a state,
/// says nothing of either.
pub proof fn lemma_says_nothing(s: Seq<char>, before: Seq<char>, c: Seq<char>, i: int, k: int)
    requires
        reading::is_ended(before),
        reading::is_clause(c),
        s == before + seq![' ', ' ', ' ', ' '] + c + seq![' ', '.', '\n', '\n'],
        0 <= i < "owl:ObjectProperty"@.len(),
        0 <= k < "kb:LifecycleState"@.len(),
        "owl:ObjectProperty"@[i] != ' ',
        "kb:LifecycleState"@[k] != ' ',
        reading::lacks(s, "owl:ObjectProperty"@[i]),
        reading::lacks(s, "kb:LifecycleState"@[k]),
    ensures
        says(s, Seq::empty(), Seq::empty()),
{
    reading::lemma_reads_something(s, before, c);
    let statements = choose|statements: Seq<Seq<char>>| #[trigger] reading::reads_as(s, statements);
    reading::lemma_statements_lack(s, statements, "owl:ObjectProperty"@[i]);
    reading::lemma_statements_lack(s, statements, "kb:LifecycleState"@[k]);
    lemma_no_declarations(statements, i, k, statements.len());
    assert(pairs_of(Seq::empty()) =~= Seq::<Pair>::empty());
    assert(names_of(Seq::empty()) =~= Seq::<Seq<char>>::empty());
    assert(reading::reads_as(s, statements) && declare_relations(statements, Seq::empty())
        && declare_states(statements, Seq::empty()));
}

// ---- statements that declare something -----------------------------------------------------------

/// Whether a text is one word that may stand in a clause.
pub open spec fn is_word(s: Seq<char>) -> bool {
    &&& s.len() > 0
    &&& s[0] != '#'
    &&& forall|i: int|
        0 <= i < s.len() ==> !text::is_space(#[trigger] s[i]) && s[i] != '"' && s[i] != ';'
}

/// Whether a text may stand after the first word of a clause.
pub open spec fn is_plain(s: Seq<char>) -> bool {
    &&& s.len() > 0
    &&& !text::is_space(s.last())
    &&& forall|i: int| 0 <= i < s.len() ==> #[trigger] s[i] != '\n' && s[i] != '"' && s[i] != ';'
}

/// Whether a text may stand between quotes.
pub open spec fn is_literal(s: Seq<char>) -> bool {
    forall|i: int| 0 <= i < s.len() ==> #[trigger] s[i] != '\n' && s[i] != '"'
}

/// A clause of a word and a plain rest.
pub open spec fn clause(word: Seq<char>, rest: Seq<char>) -> Seq<char> {
    word.push(' ') + rest
}

/// A clause of a word and a literal.
pub open spec fn literal_clause(word: Seq<char>, literal: Seq<char>) -> Seq<char> {
    reading::with_literal(word.push(' '), literal)
}

proof fn lemma_clause(word: Seq<char>, rest: Seq<char>)
    requires
        is_word(word),
        is_plain(rest),
    ensures
        reading::is_clause(clause(word, rest)),
        turtle::cut_clause(clause(word, rest)) == Some((word, rest)),
{
    let c = clause(word, rest);
    assert(c[0] == word[0]);
    assert(c.last() == rest.last());
    assert forall|i: int| 0 <= i < c.len() implies #[trigger] c[i] != '\n' && c[i] != '"' && c[i]
        != ';' by {
        if i < word.len() {
            assert(c[i] == word[i]);
        } else if i > word.len() {
            assert(c[i] == rest[i - word.len() - 1]);
        }
    }
    reading::lemma_plain_clause(c);
    reading::lemma_cut(word, rest);
}

pub proof fn lemma_literal_clause(word: Seq<char>, literal: Seq<char>)
    requires
        is_word(word),
        is_literal(literal),
    ensures
        reading::is_clause(literal_clause(word, literal)),
        turtle::cut_clause(literal_clause(word, literal)) == Some(
            (word, reading::with_literal(Seq::empty(), literal)),
        ),
        turtle::quoted_spec(reading::with_literal(Seq::empty(), literal)) == Ok::<
            Seq<char>,
            Seq<char>,
        >(literal),
{
    let w = word.push(' ');
    assert(w[0] == word[0]);
    assert forall|i: int| 0 <= i < w.len() implies #[trigger] w[i] != '\n' && w[i] != '"' && w[i]
        != ';' by {
        if i < word.len() {
            assert(w[i] == word[i]);
        }
    }
    reading::lemma_literal_clause(w, literal);
    let rest = reading::with_literal(Seq::empty(), literal);
    assert(w + rest =~= literal_clause(word, literal));
    reading::lemma_cut(word, rest);
    reading::lemma_quoted(literal);
}

/// The first clause of a declaration: a name and what it is declared as.
pub open spec fn head_clause(name: Seq<char>, kind: Seq<char>) -> Seq<char> {
    "kb:"@ + name + seq![' ', 'a', ' '] + kind
}

proof fn lemma_head(name: Seq<char>, kind: Seq<char>)
    requires
        is_word(name),
        is_word(kind),
    ensures
        reading::is_clause(head_clause(name, kind)),
        turtle::declares(head_clause(name, kind), kind),
        turtle::local_spec(text::first_word_spec(head_clause(name, kind))) == Ok::<
            Seq<char>,
            Seq<char>,
        >(name),
{
    reveal_strlit("kb:");
    let head = head_clause(name, kind);
    let word = "kb:"@ + name;
    let rest = seq!['a', ' '] + kind;
    assert forall|i: int| 0 <= i < word.len() implies !text::is_space(#[trigger] word[i])
        && word[i] != '"' && word[i] != ';' by {
        if i >= 3 {
            assert(word[i] == name[i - 3]);
        }
    }
    assert forall|i: int| 0 <= i < rest.len() implies #[trigger] rest[i] != '\n' && rest[i] != '"'
        && rest[i] != ';' by {
        if i >= 2 {
            assert(rest[i] == kind[i - 2]);
        }
    }
    assert(rest.last() == kind.last());
    assert(kind[kind.len() - 1] == kind.last());
    lemma_clause(word, rest);
    assert(clause(word, rest) =~= head);
    assert(head[0] == 'k');
    assert(text::trim_start_spec(head) == head);
    assert(text::find_space_spec(head) is Some);
    assert(text::first_word_spec(head) == word);
    assert(word.subrange(0, 3) =~= "kb:"@);
    assert(name[name.len() - 1] == name.last());
    reading::lemma_local(name);
    let at = word.len() + 3;
    assert(head.subrange(at as int, at as int + kind.len()) =~= kind);
    assert(text::occurs_at(head, kind, at as int));
}

// ---- relations -----------------------------------------------------------------------------------

pub open spec fn relation_clauses(
    name: Seq<char>,
    domain: Seq<char>,
    range: Seq<char>,
    inverse: Option<Seq<char>>,
    doc: Seq<char>,
) -> Seq<Seq<char>> {
    let head = head_clause(name, "owl:ObjectProperty"@);
    let from = clause("rdfs:domain"@, domain);
    let to = clause("rdfs:range"@, range);
    let label = literal_clause("rdfs:label"@, name);
    let comment = literal_clause("rdfs:comment"@, doc);
    match inverse {
        Some(other) => seq![
            head,
            from,
            to,
            clause("owl:inverseOf"@, "kb:"@ + other),
            label,
            comment,
        ],
        None => seq![head, from, to, label, comment],
    }
}

/// Whether the clauses of a relation, if they could be read so far, gave this inverse and
/// this label.
spec fn gives(
    p: Result<PropertyView, Seq<char>>,
    inverse: Option<Seq<char>>,
    label: Option<Seq<char>>,
) -> bool {
    match p {
        Ok(p) => p.inverse == inverse && p.label == label,
        Err(_) => true,
    }
}

proof fn lemma_words()
    ensures
        is_word("rdfs:domain"@),
        is_word("rdfs:range"@),
        is_word("owl:inverseOf"@),
        is_word("rdfs:label"@),
        is_word("rdfs:comment"@),
        is_word("owl:ObjectProperty"@),
        "rdfs:domain"@ != "rdfs:range"@,
        "rdfs:domain"@ != "owl:inverseOf"@,
        "rdfs:domain"@ != "rdfs:label"@,
        "rdfs:domain"@ != "rdfs:comment"@,
        "rdfs:range"@ != "owl:inverseOf"@,
        "rdfs:range"@ != "rdfs:label"@,
        "rdfs:range"@ != "rdfs:comment"@,
        "owl:inverseOf"@ != "rdfs:label"@,
        "owl:inverseOf"@ != "rdfs:comment"@,
        "rdfs:label"@ != "rdfs:comment"@,
        reading::lacks("owl:ObjectProperty"@, 'L'),
{
    reveal_strlit("rdfs:domain");
    reveal_strlit("rdfs:range");
    reveal_strlit("owl:inverseOf");
    reveal_strlit("rdfs:label");
    reveal_strlit("rdfs:comment");
    reveal_strlit("owl:ObjectProperty");
    assert("rdfs:range"@[5] != "rdfs:label"@[5]);
}

/// What one more clause adds to what those before it gave.
proof fn lemma_property_step(
    clauses: Seq<Seq<char>>,
    local: Seq<char>,
    n: nat,
    word: Seq<char>,
    rest: Seq<char>,
    inverse: Option<Seq<char>>,
    label: Option<Seq<char>>,
)
    requires
        n < clauses.len(),
        gives(relation_vocab::with_clauses(clauses, local, n), inverse, label),
        text::trim_spec(clauses[n as int]).len() > 0,
        turtle::cut_clause(text::trim_spec(clauses[n as int])) == Some((word, rest)),
    ensures
        word == "rdfs:domain"@ || word == "rdfs:range"@ || word == "rdfs:comment"@ ==> gives(
            relation_vocab::with_clauses(clauses, local, n + 1),
            inverse,
            label,
        ),
        word == "owl:inverseOf"@ && turtle::local_spec(rest) is Ok ==> gives(
            relation_vocab::with_clauses(clauses, local, n + 1),
            Some(turtle::local_spec(rest)->Ok_0),
            label,
        ),
        word == "rdfs:label"@ && turtle::quoted_spec(rest) is Ok ==> gives(
            relation_vocab::with_clauses(clauses, local, n + 1),
            inverse,
            Some(turtle::quoted_spec(rest)->Ok_0),
        ),
{
    lemma_words();
    assert((n + 1 - 1) as nat == n);
}

proof fn lemma_term(name: Seq<char>)
    requires
        is_word(name),
    ensures
        is_plain("kb:"@ + name),
        turtle::local_spec("kb:"@ + name) == Ok::<Seq<char>, Seq<char>>(name),
{
    let term = "kb:"@ + name;
    reveal_strlit("kb:");
    assert(name[name.len() - 1] == name.last());
    assert(term.last() == name.last());
    assert forall|i: int| 0 <= i < term.len() implies #[trigger] term[i] != '\n' && term[i] != '"'
        && term[i] != ';' by {
        if i >= 3 {
            assert(term[i] == name[i - 3]);
        }
    }
    reading::lemma_local(name);
}

/// What the clauses of a relation give.
proof fn lemma_property(
    name: Seq<char>,
    domain: Seq<char>,
    range: Seq<char>,
    inverse: Option<Seq<char>>,
    doc: Seq<char>,
    clauses: Seq<Seq<char>>,
)
    requires
        is_word(name),
        is_plain(domain),
        is_plain(range),
        inverse is Some ==> is_word(inverse->0),
        is_literal(doc),
        ({
            let cs = relation_clauses(name, domain, range, inverse, doc);
            clauses.len() == cs.len() - 1 && forall|i: int|
                0 <= i < cs.len() - 1 ==> text::trim_spec(#[trigger] clauses[i]) == cs[i + 1]
        }),
    ensures
        gives(relation_vocab::with_clauses(clauses, name, clauses.len()), inverse, Some(name)),
{
    let cs = relation_clauses(name, domain, range, inverse, doc);
    lemma_words();
    lemma_clause("rdfs:domain"@, domain);
    lemma_clause("rdfs:range"@, range);
    lemma_literal_clause("rdfs:label"@, name);
    lemma_literal_clause("rdfs:comment"@, doc);
    let none = Seq::<char>::empty();
    let label = reading::with_literal(none, name);
    let comment = reading::with_literal(none, doc);
    assert(text::trim_spec(clauses[0]) == cs[1]);
    assert(text::trim_spec(clauses[1]) == cs[2]);
    assert(text::trim_spec(clauses[2]) == cs[3]);
    assert(text::trim_spec(clauses[3]) == cs[4]);
    lemma_property_step(clauses, name, 0, "rdfs:domain"@, domain, None, None);
    lemma_property_step(clauses, name, 1, "rdfs:range"@, range, None, None);
    if let Some(other) = inverse {
        let term = "kb:"@ + other;
        lemma_term(other);
        lemma_clause("owl:inverseOf"@, term);
        assert(text::trim_spec(clauses[4]) == cs[5]);
        lemma_property_step(clauses, name, 2, "owl:inverseOf"@, term, None, None);
        lemma_property_step(clauses, name, 3, "rdfs:label"@, label, inverse, None);
        lemma_property_step(clauses, name, 4, "rdfs:comment"@, comment, inverse, Some(name));
    } else {
        lemma_property_step(clauses, name, 2, "rdfs:label"@, label, None, None);
        lemma_property_step(clauses, name, 3, "rdfs:comment"@, comment, None, Some(name));
    }
}

/// A head that declares a relation does not declare a state.
proof fn lemma_no_state(name: Seq<char>)
    requires
        is_word(name),
        reading::lacks(name, 'L'),
    ensures
        !turtle::declares(head_clause(name, "owl:ObjectProperty"@), "kb:LifecycleState"@),
{
    let head = head_clause(name, "owl:ObjectProperty"@);
    lemma_words();
    reveal_strlit("kb:");
    reveal_strlit("kb:LifecycleState");
    assert forall|i: int| 0 <= i < head.len() implies #[trigger] head[i] != 'L' by {
        if 3 <= i < 3 + name.len() {
            assert(head[i] == name[i - 3]);
        } else if i >= 6 + name.len() {
            assert(head[i] == "owl:ObjectProperty"@[i - 6 - name.len()]);
        }
    }
    reading::lemma_not_contained(head, "kb:LifecycleState"@, 3);
}

proof fn lemma_are_clauses(
    name: Seq<char>,
    domain: Seq<char>,
    range: Seq<char>,
    inverse: Option<Seq<char>>,
    doc: Seq<char>,
)
    requires
        is_word(name),
        is_plain(domain),
        is_plain(range),
        inverse is Some ==> is_word(inverse->0),
        is_literal(doc),
    ensures
        ({
            let cs = relation_clauses(name, domain, range, inverse, doc);
            cs.len() >= 5 && cs[0] == head_clause(name, "owl:ObjectProperty"@) && forall|i: int|
                0 <= i < cs.len() ==> reading::is_clause(#[trigger] cs[i])
        }),
{
    let cs = relation_clauses(name, domain, range, inverse, doc);
    assert(reading::is_clause(head_clause(name, "owl:ObjectProperty"@))) by {
        lemma_words();
        lemma_head(name, "owl:ObjectProperty"@);
    }
    assert(reading::is_clause(clause("rdfs:domain"@, domain))) by {
        lemma_words();
        lemma_clause("rdfs:domain"@, domain);
    }
    assert(reading::is_clause(clause("rdfs:range"@, range))) by {
        lemma_words();
        lemma_clause("rdfs:range"@, range);
    }
    assert(reading::is_clause(literal_clause("rdfs:label"@, name))) by {
        lemma_words();
        lemma_literal_clause("rdfs:label"@, name);
    }
    assert(reading::is_clause(literal_clause("rdfs:comment"@, doc))) by {
        lemma_words();
        lemma_literal_clause("rdfs:comment"@, doc);
    }
    if let Some(other) = inverse {
        assert(reading::is_clause(clause("owl:inverseOf"@, "kb:"@ + other))) by {
            lemma_words();
            lemma_term(other);
            lemma_clause("owl:inverseOf"@, "kb:"@ + other);
        }
    }
}

/// What the lines of a relation say.
proof fn lemma_relation_clauses(
    name: Seq<char>,
    domain: Seq<char>,
    range: Seq<char>,
    inverse: Option<Seq<char>>,
    doc: Seq<char>,
)
    requires
        is_word(name),
        reading::lacks(name, 'L'),
        is_plain(domain),
        is_plain(range),
        inverse is Some ==> is_word(inverse->0),
        is_literal(doc),
    ensures
        says(
            reading::lines_of(relation_clauses(name, domain, range, inverse, doc)),
            seq![(name, inverse)],
            Seq::empty(),
        ),
{
    let cs = relation_clauses(name, domain, range, inverse, doc);
    lemma_words();
    lemma_head(name, "owl:ObjectProperty"@);
    lemma_are_clauses(name, domain, range, inverse, doc);
    reading::lemma_lines_of(cs);
    reading::lemma_statement_of(cs);
    let st = reading::statement_of(cs);
    lemma_property(name, domain, range, inverse, doc, turtle::clauses_spec(st));
    lemma_no_state(name);
    lemma_one_relation(st, name, inverse);
    assert(reading::reads_as(reading::lines_of(cs), seq![st]));
}

proof fn lemma_one_relation(st: Seq<char>, name: Seq<char>, inverse: Option<Seq<char>>)
    requires
        turtle::declares(turtle::head_spec(st), "owl:ObjectProperty"@),
        !turtle::declares(turtle::head_spec(st), "kb:LifecycleState"@),
        turtle::local_spec(text::first_word_spec(turtle::head_spec(st))) == Ok::<
            Seq<char>,
            Seq<char>,
        >(name),
        ({
            let clauses = turtle::clauses_spec(st);
            gives(relation_vocab::with_clauses(clauses, name, clauses.len()), inverse, Some(name))
        }),
    ensures
        declare_relations(seq![st], seq![(name, inverse)]),
        declare_states(seq![st], Seq::empty()),
{
    let one = seq![st];
    assert(relation_vocab::declared_properties(one, 0) == Ok::<Seq<PredicateView>, Seq<char>>(
        Seq::empty(),
    ));
    if let Ok(list) = relation_vocab::declared_properties(one, 1) {
        assert(pairs_of(list) =~= seq![(name, inverse)]);
    }
    assert(state_model::declared_states(one, 0) == Ok::<Seq<StateView>, Seq<char>>(Seq::empty()));
    assert(state_model::declared_states(one, 1) == Ok::<Seq<StateView>, Seq<char>>(Seq::empty()));
    assert(names_of(Seq::empty()) =~= Seq::<Seq<char>>::empty());
}

// ---- states --------------------------------------------------------------------------------------

pub open spec fn state_clauses(name: Seq<char>, doc: Seq<char>, targets: Seq<char>) -> Seq<
    Seq<char>,
> {
    seq![
        head_clause(name, "kb:LifecycleState"@),
        literal_clause("kb:board"@, "development"@),
        literal_clause("rdfs:label"@, name),
        literal_clause("rdfs:comment"@, doc),
        clause("kb:transitionsTo"@, targets),
    ]
}

/// Whether the clauses of a state, if they could be read so far, gave this label.
spec fn labels(d: Result<DeclarationView, Seq<char>>, label: Option<Seq<char>>) -> bool {
    match d {
        Ok(d) => d.label == label,
        Err(_) => true,
    }
}

proof fn lemma_state_words()
    ensures
        is_word("kb:board"@),
        is_word("rdfs:label"@),
        is_word("rdfs:comment"@),
        is_word("kb:transitionsTo"@),
        is_word("kb:LifecycleState"@),
        is_literal("development"@),
        "kb:board"@ != "rdfs:label"@,
        "kb:board"@ != "rdfs:comment"@,
        "kb:board"@ != "kb:transitionsTo"@,
        "rdfs:label"@ != "rdfs:comment"@,
        "rdfs:label"@ != "kb:transitionsTo"@,
        "rdfs:comment"@ != "kb:transitionsTo"@,
        reading::lacks("kb:LifecycleState"@, 'j'),
{
    reveal_strlit("kb:board");
    reveal_strlit("rdfs:label");
    reveal_strlit("rdfs:comment");
    reveal_strlit("kb:transitionsTo");
    reveal_strlit("kb:LifecycleState");
    reveal_strlit("development");
    assert("kb:board"@.len() == 8 && "rdfs:label"@.len() == 10);
    assert("rdfs:comment"@.len() == 12 && "kb:transitionsTo"@.len() == 16);
}

/// What one more clause adds to what those before it gave.
proof fn lemma_state_step(
    clauses: Seq<Seq<char>>,
    local: Seq<char>,
    n: nat,
    word: Seq<char>,
    rest: Seq<char>,
    label: Option<Seq<char>>,
)
    requires
        n < clauses.len(),
        labels(state_model::with_clauses(clauses, local, n), label),
        text::trim_spec(clauses[n as int]).len() > 0,
        turtle::cut_clause(text::trim_spec(clauses[n as int])) == Some((word, rest)),
    ensures
        word == "kb:board"@ || word == "rdfs:comment"@ || word == "kb:transitionsTo"@ ==> labels(
            state_model::with_clauses(clauses, local, n + 1),
            label,
        ),
        word == "rdfs:label"@ && turtle::quoted_spec(rest) is Ok ==> labels(
            state_model::with_clauses(clauses, local, n + 1),
            Some(turtle::quoted_spec(rest)->Ok_0),
        ),
{
    lemma_state_words();
    assert((n + 1 - 1) as nat == n);
}

/// What the clauses of a state give.
proof fn lemma_declaration(
    name: Seq<char>,
    doc: Seq<char>,
    targets: Seq<char>,
    clauses: Seq<Seq<char>>,
)
    requires
        is_word(name),
        is_literal(doc),
        is_plain(targets),
        clauses.len() == 4,
        forall|i: int|
            0 <= i < 4 ==> text::trim_spec(#[trigger] clauses[i]) == state_clauses(
                name,
                doc,
                targets,
            )[i + 1],
    ensures
        labels(state_model::with_clauses(clauses, name, 4), Some(name)),
{
    let cs = state_clauses(name, doc, targets);
    lemma_state_words();
    lemma_literal_clause("kb:board"@, "development"@);
    lemma_literal_clause("rdfs:label"@, name);
    lemma_literal_clause("rdfs:comment"@, doc);
    lemma_clause("kb:transitionsTo"@, targets);
    let none = Seq::<char>::empty();
    assert(text::trim_spec(clauses[0]) == cs[1]);
    assert(text::trim_spec(clauses[1]) == cs[2]);
    assert(text::trim_spec(clauses[2]) == cs[3]);
    assert(text::trim_spec(clauses[3]) == cs[4]);
    let board = reading::with_literal(none, "development"@);
    let label = reading::with_literal(none, name);
    let comment = reading::with_literal(none, doc);
    lemma_state_step(clauses, name, 0, "kb:board"@, board, None);
    lemma_state_step(clauses, name, 1, "rdfs:label"@, label, None);
    lemma_state_step(clauses, name, 2, "rdfs:comment"@, comment, Some(name));
    lemma_state_step(clauses, name, 3, "kb:transitionsTo"@, targets, Some(name));
}

/// A head that declares a state does not declare a relation.
proof fn lemma_no_relation(name: Seq<char>)
    requires
        is_word(name),
        reading::lacks(name, 'j'),
    ensures
        !turtle::declares(head_clause(name, "kb:LifecycleState"@), "owl:ObjectProperty"@),
{
    let head = head_clause(name, "kb:LifecycleState"@);
    lemma_state_words();
    reveal_strlit("kb:");
    reveal_strlit("owl:ObjectProperty");
    assert forall|i: int| 0 <= i < head.len() implies #[trigger] head[i] != 'j' by {
        if 3 <= i < 3 + name.len() {
            assert(head[i] == name[i - 3]);
        } else if i >= 6 + name.len() {
            assert(head[i] == "kb:LifecycleState"@[i - 6 - name.len()]);
        }
    }
    reading::lemma_not_contained(head, "owl:ObjectProperty"@, 6);
}

/// What the lines of a state say.
proof fn lemma_state_clauses(name: Seq<char>, doc: Seq<char>, targets: Seq<char>)
    requires
        is_word(name),
        reading::lacks(name, 'j'),
        is_literal(doc),
        is_plain(targets),
    ensures
        says(reading::lines_of(state_clauses(name, doc, targets)), Seq::empty(), seq![name]),
{
    let cs = state_clauses(name, doc, targets);
    lemma_state_words();
    lemma_head(name, "kb:LifecycleState"@);
    assert forall|i: int| 0 <= i < cs.len() implies reading::is_clause(#[trigger] cs[i]) by {
        lemma_literal_clause("kb:board"@, "development"@);
        lemma_literal_clause("rdfs:label"@, name);
        lemma_literal_clause("rdfs:comment"@, doc);
        lemma_clause("kb:transitionsTo"@, targets);
    }
    reading::lemma_lines_of(cs);
    reading::lemma_statement_of(cs);
    let st = reading::statement_of(cs);
    lemma_declaration(name, doc, targets, turtle::clauses_spec(st));
    lemma_no_relation(name);
    lemma_one_state(st, name);
    assert(reading::reads_as(reading::lines_of(cs), seq![st]));
}

proof fn lemma_one_state(st: Seq<char>, name: Seq<char>)
    requires
        turtle::declares(turtle::head_spec(st), "kb:LifecycleState"@),
        !turtle::declares(turtle::head_spec(st), "owl:ObjectProperty"@),
        turtle::local_spec(text::first_word_spec(turtle::head_spec(st))) == Ok::<
            Seq<char>,
            Seq<char>,
        >(name),
        ({
            let clauses = turtle::clauses_spec(st);
            labels(state_model::with_clauses(clauses, name, clauses.len()), Some(name))
        }),
    ensures
        declare_relations(seq![st], Seq::empty()),
        declare_states(seq![st], seq![name]),
{
    let one = seq![st];
    assert(state_model::declared_states(one, 0) == Ok::<Seq<StateView>, Seq<char>>(Seq::empty()));
    if let Ok(list) = state_model::declared_states(one, 1) {
        assert(names_of(list) =~= seq![name]);
    }
    assert(relation_vocab::declared_properties(one, 0) == Ok::<Seq<PredicateView>, Seq<char>>(
        Seq::empty(),
    ));
    assert(relation_vocab::declared_properties(one, 1) == Ok::<Seq<PredicateView>, Seq<char>>(
        Seq::empty(),
    ));
    assert(pairs_of(Seq::empty()) =~= Seq::<Pair>::empty());
}

// ---- texts of a known shape ------------------------------------------------------------------------

/// What stands between two clauses.
pub open spec fn between() -> Seq<char> {
    seq![' ', ';', '\n', ' ', ' ', ' ', ' ']
}

/// Whether a text is a literal with something before and after it.
pub open spec fn is_framed(s: Seq<char>, start: Seq<char>, end: Seq<char>) -> bool {
    &&& s.len() >= start.len() + end.len()
    &&& s.take(start.len() as int) == start
    &&& s.skip(s.len() - end.len()) == end
    &&& forall|i: int|
        start.len() <= i < s.len() - end.len() ==> #[trigger] s[i] != '\n' && s[i] != '"'
}

/// The lines of a relation up to its comment.
pub open spec fn relation_start(
    name: Seq<char>,
    domain: Seq<char>,
    range: Seq<char>,
    inverse: Option<Seq<char>>,
) -> Seq<char> {
    head_clause(name, "owl:ObjectProperty"@) + between() + clause("rdfs:domain"@, domain)
        + between() + clause("rdfs:range"@, range) + between() + (match inverse {
        Some(other) => clause("owl:inverseOf"@, "kb:"@ + other) + between(),
        None => Seq::empty(),
    }) + literal_clause("rdfs:label"@, name) + between() + "rdfs:comment"@ + seq![' ', '"']
}

pub proof fn lemma_relation(
    s: Seq<char>,
    name: Seq<char>,
    domain: Seq<char>,
    range: Seq<char>,
    inverse: Option<Seq<char>>,
)
    requires
        is_word(name),
        reading::lacks(name, 'L'),
        is_plain(domain),
        is_plain(range),
        inverse is Some ==> is_word(inverse->0),
        is_framed(
            s,
            relation_start(name, domain, range, inverse),
            seq!['"', ' ', '.', '\n', '\n'],
        ),
    ensures
        says(s, seq![(name, inverse)], Seq::empty()),
{
    let start = relation_start(name, domain, range, inverse);
    let end = seq!['"', ' ', '.', '\n', '\n'];
    let doc = s.subrange(start.len() as int, s.len() - 5);
    assert forall|i: int| 0 <= i < doc.len() implies #[trigger] doc[i] != '\n' && doc[i] != '"' by {
        assert(doc[i] == s[start.len() + i]);
    }
    assert(s =~= s.take(start.len() as int) + doc + s.skip(s.len() - 5));
    lemma_relation_clauses(name, domain, range, inverse, doc);
    lemma_relation_lines(name, domain, range, inverse, doc);
}

proof fn lemma_relation_lines(
    name: Seq<char>,
    domain: Seq<char>,
    range: Seq<char>,
    inverse: Option<Seq<char>>,
    doc: Seq<char>,
)
    ensures
        reading::lines_of(relation_clauses(name, domain, range, inverse, doc)) == relation_start(
            name,
            domain,
            range,
            inverse,
        ) + doc + seq!['"', ' ', '.', '\n', '\n'],
{
    let cs = relation_clauses(name, domain, range, inverse, doc);
    let label = literal_clause("rdfs:label"@, name);
    let comment = literal_clause("rdfs:comment"@, doc);
    let three = cs[0] + between() + cs[1] + between() + cs[2];
    lemma_lines(cs, 3);
    let start = relation_start(name, domain, range, inverse);
    let end = seq!['"', ' ', '.', '\n', '\n'];
    let opening = "rdfs:comment"@ + seq![' ', '"'];
    assert(comment + seq![' ', '.', '\n', '\n'] =~= opening + doc + end);
    if let Some(other) = inverse {
        let back = clause("owl:inverseOf"@, "kb:"@ + other);
        lemma_lines(cs, 5);
        let five = three + between() + back + between() + label;
        assert(before_end(cs, 5) =~= five);
        assert(five + between() + opening =~= start);
        assert(reading::lines_of(cs) =~= five + between() + (comment + seq![' ', '.', '\n', '\n']));
        assert(five + between() + (opening + doc + end) =~= five + between() + opening + doc + end);
    } else {
        lemma_lines(cs, 4);
        let four = three + between() + label;
        assert(before_end(cs, 4) =~= four);
        assert(four + between() + opening =~= start);
        assert(reading::lines_of(cs) =~= four + between() + (comment + seq![' ', '.', '\n', '\n']));
        assert(four + between() + (opening + doc + end) =~= four + between() + opening + doc + end);
    }
}

/// The first `n` clauses on their lines, without what follows the last of them.
pub open spec fn before_end(cs: Seq<Seq<char>>, n: nat) -> Seq<char>
    decreases n,
{
    if n <= 1 {
        cs[0]
    } else {
        before_end(cs, (n - 1) as nat) + between() + cs[n - 1]
    }
}

proof fn lemma_lines(cs: Seq<Seq<char>>, n: nat)
    requires
        1 <= n,
    ensures
        reading::open_lines(cs, n) == before_end(cs, n) + seq![' ', ';', '\n'],
        n >= 3 ==> before_end(cs, 3) == cs[0] + between() + cs[1] + between() + cs[2],
        n >= 4 ==> before_end(cs, 4) == before_end(cs, 3) + between() + cs[3],
        n >= 5 ==> before_end(cs, 5) == before_end(cs, 4) + between() + cs[4],
    decreases n,
{
    if n > 1 {
        lemma_lines(cs, (n - 1) as nat);
        assert(reading::open_lines(cs, n) =~= before_end(cs, n) + seq![' ', ';', '\n']);
        assert(before_end(cs, 1) == cs[0]);
        assert(before_end(cs, 2) == cs[0] + between() + cs[1]);
    }
}

/// The lines of a state up to its comment.
pub open spec fn state_start(name: Seq<char>) -> Seq<char> {
    head_clause(name, "kb:LifecycleState"@) + between() + literal_clause(
        "kb:board"@,
        "development"@,
    ) + between() + literal_clause("rdfs:label"@, name) + between() + "rdfs:comment"@ + seq![
        ' ',
        '"',
    ]
}

/// The lines of a state from the end of its comment on.
pub open spec fn state_end(targets: Seq<char>) -> Seq<char> {
    seq!['"'] + between() + clause("kb:transitionsTo"@, targets) + seq![' ', '.', '\n', '\n']
}

pub proof fn lemma_state(s: Seq<char>, name: Seq<char>, targets: Seq<char>)
    requires
        is_word(name),
        reading::lacks(name, 'j'),
        is_plain(targets),
        is_framed(s, state_start(name), state_end(targets)),
    ensures
        says(s, Seq::empty(), seq![name]),
{
    let start = state_start(name);
    let end = state_end(targets);
    let doc = s.subrange(start.len() as int, s.len() - end.len());
    assert forall|i: int| 0 <= i < doc.len() implies #[trigger] doc[i] != '\n' && doc[i] != '"' by {
        assert(doc[i] == s[start.len() + i]);
    }
    assert(s =~= s.take(start.len() as int) + doc + s.skip(s.len() - end.len()));
    lemma_state_clauses(name, doc, targets);
    lemma_state_lines(name, doc, targets);
}

proof fn lemma_state_lines(name: Seq<char>, doc: Seq<char>, targets: Seq<char>)
    ensures
        reading::lines_of(state_clauses(name, doc, targets)) == state_start(name) + doc
            + state_end(targets),
{
    let cs = state_clauses(name, doc, targets);
    let stop = seq![' ', '.', '\n', '\n'];
    let opening = "rdfs:comment"@ + seq![' ', '"'];
    lemma_lines(cs, 4);
    let three = cs[0] + between() + cs[1] + between() + cs[2];
    assert(cs[3] =~= opening + doc + seq!['"']);
    assert(three + between() + opening =~= state_start(name));
    assert(reading::lines_of(cs) =~= before_end(cs, 4) + between() + cs[4] + stop);
    assert(three + between() + (opening + doc + seq!['"']) + between() + cs[4] + stop =~= (three
        + between() + opening) + doc + (seq!['"'] + between() + cs[4] + stop));
}

} // verus!
