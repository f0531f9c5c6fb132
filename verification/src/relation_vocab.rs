//! The vocabulary of relations: which kinds of edges there are between items, and
//! which items they may join.
//!
//! The vocabulary is read from the ontology. Where the ontology cannot be read, a
//! fixed strict vocabulary takes its place: a fault never opens the board to edges
//! that nobody declared.
use vstd::prelude::*;
use vstd::string::StringExecFns;
use crate::item_type;
use crate::item_type::ItemType;
use crate::ontology;
use crate::text;
use crate::turtle;
use crate::turtle::Statement;

verus! {

/// A kind of relation.
#[derive(Debug, PartialEq, Eq)]
pub struct Predicate {
    pub name: String,
    /// Types that may be the source; none means any.
    pub domain: Vec<String>,
    /// Types that may be the target; none means any.
    pub range: Vec<String>,
    /// The name of the relation the other way round, if it has one. Only one direction
    /// is ever stored.
    pub inverse: Option<String>,
    pub doc: String,
}

#[verifier::ext_equal]
pub struct PredicateView {
    pub name: Seq<char>,
    pub domain: Seq<Seq<char>>,
    pub range: Seq<Seq<char>>,
    pub inverse: Option<Seq<char>>,
    pub doc: Seq<char>,
}

/// What an optional text holds.
pub open spec fn option_view(s: Option<String>) -> Option<Seq<char>> {
    match s {
        Some(s) => Some(s@),
        None => None,
    }
}

impl View for Predicate {
    type V = PredicateView;

    open spec fn view(&self) -> PredicateView {
        PredicateView {
            name: self.name@,
            domain: text::views(self.domain@),
            range: text::views(self.range@),
            inverse: option_view(self.inverse),
            doc: self.doc@,
        }
    }
}

pub open spec fn predicate_views(list: Seq<Predicate>) -> Seq<PredicateView> {
    Seq::new(list.len(), |i: int| list[i]@)
}

fn copy_option(s: &Option<String>) -> (r: Option<String>)
    ensures
        option_view(r) == option_view(*s),
{
    match s {
        Some(s) => Some(s.clone()),
        None => None,
    }
}

impl Clone for Predicate {
    fn clone(&self) -> (r: Self)
        ensures
            r@ == self@,
    {
        Predicate {
            name: self.name.clone(),
            domain: text::clone_strings(&self.domain),
            range: text::clone_strings(&self.range),
            inverse: copy_option(&self.inverse),
            doc: self.doc.clone(),
        }
    }
}

/// A kind of thing that relations may join although it is on no board.
#[derive(Debug, Clone, PartialEq, Eq)]
pub struct EntityClass {
    /// The name in small letters.
    pub name: String,
    /// What ids of the kind start with, in capitals, where it is declared.
    pub id_prefix: Option<String>,
}

#[verifier::ext_equal]
pub struct ClassView {
    pub name: Seq<char>,
    pub id_prefix: Option<Seq<char>>,
}

impl View for EntityClass {
    type V = ClassView;

    open spec fn view(&self) -> ClassView {
        ClassView { name: self.name@, id_prefix: option_view(self.id_prefix) }
    }
}

pub open spec fn class_views(list: Seq<EntityClass>) -> Seq<ClassView> {
    Seq::new(list.len(), |i: int| list[i]@)
}

// ---- reading relations ------------------------------------------------------------------

/// What the clauses of a declaration have said so far.
#[verifier::ext_equal]
pub struct PropertyView {
    pub domain: Seq<Seq<char>>,
    pub range: Seq<Seq<char>>,
    pub inverse: Option<Seq<char>>,
    pub label: Option<Seq<char>>,
    pub doc: Option<Seq<char>>,
}

pub open spec fn blank_property() -> PropertyView {
    PropertyView {
        domain: Seq::empty(),
        range: Seq::empty(),
        inverse: None,
        label: None,
        doc: None,
    }
}

/// A declaration with one more clause. Clauses that say something else are passed
/// over.
pub open spec fn with_clause(p: PropertyView, clause: Seq<char>, local: Seq<char>) -> Result<
    PropertyView,
    Seq<char>,
> {
    let c = text::trim_spec(clause);
    if c.len() == 0 {
        Ok(p)
    } else {
        match turtle::cut_clause(c) {
            None => Err(turtle::bad_clause(c, local)),
            Some((word, rest)) => if word == "rdfs:domain"@ {
                match turtle::class_list_spec(rest) {
                    Ok(domain) => Ok(PropertyView { domain, ..p }),
                    Err(e) => Err(e),
                }
            } else if word == "rdfs:range"@ {
                match turtle::class_list_spec(rest) {
                    Ok(range) => Ok(PropertyView { range, ..p }),
                    Err(e) => Err(e),
                }
            } else if word == "owl:inverseOf"@ {
                match turtle::local_spec(rest) {
                    Ok(name) => Ok(PropertyView { inverse: Some(name), ..p }),
                    Err(e) => Err(e),
                }
            } else if word == "rdfs:label"@ {
                match turtle::quoted_spec(rest) {
                    Ok(label) => Ok(PropertyView { label: Some(label), ..p }),
                    Err(e) => Err(e),
                }
            } else if word == "rdfs:comment"@ {
                match turtle::quoted_spec(rest) {
                    Ok(doc) => Ok(PropertyView { doc: Some(doc), ..p }),
                    Err(e) => Err(e),
                }
            } else {
                Ok(p)
            },
        }
    }
}

pub open spec fn with_clauses(clauses: Seq<Seq<char>>, local: Seq<char>, n: nat) -> Result<
    PropertyView,
    Seq<char>,
>
    decreases n,
{
    if n == 0 {
        Ok(blank_property())
    } else {
        match with_clauses(clauses, local, (n - 1) as nat) {
            Ok(p) => with_clause(p, clauses[n - 1], local),
            Err(e) => Err(e),
        }
    }
}

/// The relation that a statement declares, if it declares one.
pub open spec fn property_of(statement: Seq<char>) -> Result<Option<PredicateView>, Seq<char>> {
    let head = turtle::head_spec(statement);
    if !turtle::declares(head, "owl:ObjectProperty"@) {
        Ok(None)
    } else {
        match turtle::local_spec(text::first_word_spec(head)) {
            Err(e) => Err(e),
            Ok(local) => {
                let clauses = turtle::clauses_spec(statement);
                match with_clauses(clauses, local, clauses.len()) {
                    Err(e) => Err(e),
                    Ok(p) => Ok(
                        Some(
                            PredicateView {
                                name: match p.label {
                                    Some(label) => label,
                                    None => local,
                                },
                                domain: p.domain,
                                range: p.range,
                                inverse: p.inverse,
                                doc: match p.doc {
                                    Some(doc) => doc,
                                    None => Seq::empty(),
                                },
                            },
                        ),
                    ),
                }
            },
        }
    }
}

/// The relations that the first `n` statements declare.
pub open spec fn declared_properties(statements: Seq<Seq<char>>, n: nat) -> Result<
    Seq<PredicateView>,
    Seq<char>,
>
    decreases n,
{
    if n == 0 {
        Ok(Seq::empty())
    } else {
        match declared_properties(statements, (n - 1) as nat) {
            Err(e) => Err(e),
            Ok(before) => match property_of(statements[n - 1]) {
                Err(e) => Err(e),
                Ok(None) => Ok(before),
                Ok(Some(p)) => Ok(before.push(p)),
            },
        }
    }
}

pub open spec fn has_name(list: Seq<PredicateView>, name: Seq<char>) -> bool {
    exists|i: int| 0 <= i < list.len() && (#[trigger] list[i]).name == name
}

/// What is wrong where a relation among the first `n` has an inverse that is not
/// among them all.
pub open spec fn missing_inverse(list: Seq<PredicateView>, n: nat) -> Option<Seq<char>>
    decreases n,
{
    if n == 0 {
        None
    } else {
        match missing_inverse(list, (n - 1) as nat) {
            Some(e) => Some(e),
            None => match list[n - 1].inverse {
                Some(inverse) => if has_name(list, inverse) {
                    None
                } else {
                    Some(
                        "'"@ + list[n - 1].name + "' names a missing inverse '"@ + inverse + "'"@,
                    )
                },
                None => None,
            },
        }
    }
}

/// The relations that a text declares.
pub open spec fn properties_spec(ttl: Seq<char>) -> Result<Seq<PredicateView>, Seq<char>> {
    match turtle::statements_spec(ttl) {
        Err(e) => Err(e),
        Ok(statements) => match declared_properties(statements, statements.len()) {
            Err(e) => Err(e),
            Ok(list) => match missing_inverse(list, list.len()) {
                Some(e) => Err(e),
                None => Ok(list),
            },
        },
    }
}

#[derive(Debug)]
struct Property {
    domain: Vec<String>,
    range: Vec<String>,
    inverse: Option<String>,
    label: Option<String>,
    doc: Option<String>,
}

impl View for Property {
    type V = PropertyView;

    closed spec fn view(&self) -> PropertyView {
        PropertyView {
            domain: text::views(self.domain@),
            range: text::views(self.range@),
            inverse: option_view(self.inverse),
            label: option_view(self.label),
            doc: option_view(self.doc),
        }
    }
}

fn add_clause(p: Property, clause: &str, local: &str) -> (r: Result<Property, String>)
    ensures
        r is Ok == with_clause(p@, clause@, local@) is Ok,
        r is Ok ==> r->Ok_0@ == with_clause(p@, clause@, local@)->Ok_0,
        r is Err ==> r->Err_0@ == with_clause(p@, clause@, local@)->Err_0,
{
    let c: String = text::trim(clause);
    if c.as_str().is_empty() {
        return Ok(p);
    }
    let (word, rest) = match turtle::split_clause(c.as_str(), local) {
        Ok(parts) => parts,
        Err(message) => return Err(message),
    };
    let mut q: Property = p;
    if text::same(word.as_str(), "rdfs:domain") {
        match turtle::class_list(rest.as_str()) {
            Ok(domain) => {
                q.domain = domain;
            },
            Err(message) => return Err(message),
        }
    } else if text::same(word.as_str(), "rdfs:range") {
        match turtle::class_list(rest.as_str()) {
            Ok(range) => {
                q.range = range;
            },
            Err(message) => return Err(message),
        }
    } else if text::same(word.as_str(), "owl:inverseOf") {
        match turtle::kb_local(rest.as_str()) {
            Ok(name) => {
                q.inverse = Some(name);
            },
            Err(message) => return Err(message),
        }
    } else if text::same(word.as_str(), "rdfs:label") {
        match turtle::quoted(rest.as_str()) {
            Ok(label) => {
                q.label = Some(label);
            },
            Err(message) => return Err(message),
        }
    } else if text::same(word.as_str(), "rdfs:comment") {
        match turtle::quoted(rest.as_str()) {
            Ok(doc) => {
                q.doc = Some(doc);
            },
            Err(message) => return Err(message),
        }
    }
    Ok(q)
}

fn read_property(statement: &str) -> (r: Result<Option<Predicate>, String>)
    ensures
        r is Ok == property_of(statement@) is Ok,
        r is Ok ==> (match r->Ok_0 {
            Some(p) => property_of(statement@)->Ok_0 == Some(p@),
            None => property_of(statement@)->Ok_0 is None,
        }),
        r is Err ==> r->Err_0@ == property_of(statement@)->Err_0,
{
    let parts: Statement = turtle::read_statement(statement);
    if !turtle::head_declares(parts.head.as_str(), "owl:ObjectProperty") {
        return Ok(None);
    }
    let subject: String = text::first_word(parts.head.as_str());
    let local: String = match turtle::kb_local(subject.as_str()) {
        Ok(local) => local,
        Err(message) => return Err(message),
    };
    let ghost clauses = turtle::clauses_spec(statement@);
    let mut p: Property = Property {
        domain: Vec::new(),
        range: Vec::new(),
        inverse: None,
        label: None,
        doc: None,
    };
    let mut i: usize = 0;
    assert(p@ =~= blank_property()) by {
        assert(p@.domain =~= Seq::<Seq<char>>::empty());
        assert(p@.range =~= Seq::<Seq<char>>::empty());
    }
    while i < parts.clauses.len()
        invariant
            i <= parts.clauses@.len(),
            clauses == text::views(parts.clauses@),
            with_clauses(clauses, local@, i as nat) is Ok,
            with_clauses(clauses, local@, i as nat)->Ok_0 == p@,
            property_of(statement@) == (match with_clauses(clauses, local@, clauses.len()) {
                Err(e) => Err::<Option<PredicateView>, Seq<char>>(e),
                Ok(p) => Ok(
                    Some(
                        PredicateView {
                            name: match p.label {
                                Some(label) => label,
                                None => local@,
                            },
                            domain: p.domain,
                            range: p.range,
                            inverse: p.inverse,
                            doc: match p.doc {
                                Some(doc) => doc,
                                None => Seq::empty(),
                            },
                        },
                    ),
                ),
            }),
        decreases parts.clauses@.len() - i,
    {
        p = match add_clause(p, parts.clauses[i].as_str(), local.as_str()) {
            Ok(q) => q,
            Err(message) => {
                proof {
                    lemma_clauses_stay_wrong(clauses, local@, (i + 1) as nat, clauses.len());
                }
                return Err(message);
            },
        };
        i = i + 1;
    }
    let name: String = match p.label {
        Some(label) => label,
        None => local,
    };
    let doc: String = match p.doc {
        Some(doc) => doc,
        None => String::new(),
    };
    Ok(Some(Predicate { name, domain: p.domain, range: p.range, inverse: p.inverse, doc }))
}

proof fn lemma_clauses_stay_wrong(clauses: Seq<Seq<char>>, local: Seq<char>, m: nat, n: nat)
    requires
        m <= n,
        with_clauses(clauses, local, m) is Err,
    ensures
        with_clauses(clauses, local, n) == with_clauses(clauses, local, m),
    decreases n - m,
{
    if m < n {
        lemma_clauses_stay_wrong(clauses, local, m, (n - 1) as nat);
    }
}

proof fn lemma_properties_stay_wrong(statements: Seq<Seq<char>>, m: nat, n: nat)
    requires
        m <= n,
        declared_properties(statements, m) is Err,
    ensures
        declared_properties(statements, n) == declared_properties(statements, m),
    decreases n - m,
{
    if m < n {
        lemma_properties_stay_wrong(statements, m, (n - 1) as nat);
    }
}

fn list_has_name(list: &Vec<Predicate>, name: &str) -> (r: bool)
    ensures
        r == has_name(predicate_views(list@), name@),
{
    let ghost views = predicate_views(list@);
    let mut i: usize = 0;
    while i < list.len()
        invariant
            i <= list@.len(),
            views == predicate_views(list@),
            forall|k: int| 0 <= k < i ==> (#[trigger] views[k]).name != name@,
        decreases list@.len() - i,
    {
        if text::same(list[i].name.as_str(), name) {
            assert(views[i as int].name == name@);
            return true;
        }
        i = i + 1;
    }
    false
}

fn find_missing_inverse(list: &Vec<Predicate>) -> (r: Option<String>)
    ensures
        option_view(r) == missing_inverse(predicate_views(list@), list@.len()),
{
    let ghost views = predicate_views(list@);
    let mut i: usize = 0;
    while i < list.len()
        invariant
            i <= list@.len(),
            views == predicate_views(list@),
            missing_inverse(views, i as nat) is None,
        decreases list@.len() - i,
    {
        assert(views[i as int] == list@[i as int]@);
        if let Some(inverse) = &list[i].inverse {
            if !list_has_name(list, inverse.as_str()) {
                let mut message: String = text::owned("'");
                message.append(list[i].name.as_str());
                message.append("' names a missing inverse '");
                message.append(inverse.as_str());
                message.append("'");
                proof {
                    lemma_inverse_stays_missing(views, (i + 1) as nat, views.len());
                }
                return Some(message);
            }
        }
        i = i + 1;
    }
    None
}

proof fn lemma_inverse_stays_missing(list: Seq<PredicateView>, m: nat, n: nat)
    requires
        m <= n,
        missing_inverse(list, m) is Some,
    ensures
        missing_inverse(list, n) == missing_inverse(list, m),
    decreases n - m,
{
    if m < n {
        lemma_inverse_stays_missing(list, m, (n - 1) as nat);
    }
}

/// Reads the relations that a text declares. A text that cannot be read whole is an
/// error, never a part of a vocabulary.
pub fn parse_object_properties(ttl: &str) -> (r: Result<Vec<Predicate>, String>)
    ensures
        r is Ok == properties_spec(ttl@) is Ok,
        r is Ok ==> predicate_views(r->Ok_0@) == properties_spec(ttl@)->Ok_0,
        r is Err ==> r->Err_0@ == properties_spec(ttl@)->Err_0,
{
    let statements: Vec<String> = match turtle::logical_statements(ttl) {
        Ok(statements) => statements,
        Err(message) => return Err(message),
    };
    let ghost all = text::views(statements@);
    let mut list: Vec<Predicate> = Vec::new();
    let mut i: usize = 0;
    assert(predicate_views(list@) =~= Seq::<PredicateView>::empty());
    while i < statements.len()
        invariant
            i <= statements@.len(),
            all == text::views(statements@),
            turtle::statements_spec(ttl@) is Ok,
            turtle::statements_spec(ttl@)->Ok_0 == all,
            declared_properties(all, i as nat) is Ok,
            declared_properties(all, i as nat)->Ok_0 == predicate_views(list@),
        decreases statements@.len() - i,
    {
        match read_property(statements[i].as_str()) {
            Ok(Some(p)) => {
                let ghost before = predicate_views(list@);
                let ghost next = p@;
                list.push(p);
                assert(predicate_views(list@) =~= before.push(next));
            },
            Ok(None) => {},
            Err(message) => {
                proof {
                    lemma_properties_stay_wrong(all, (i + 1) as nat, all.len());
                }
                return Err(message);
            },
        }
        i = i + 1;
    }
    match find_missing_inverse(&list) {
        Some(message) => Err(message),
        None => Ok(list),
    }
}

// ---- reading classes -------------------------------------------------------------------

/// The id prefix that the first `n` clauses of a class declare.
pub open spec fn prefix_in(clauses: Seq<Seq<char>>, local: Seq<char>, n: nat) -> Result<
    Option<Seq<char>>,
    Seq<char>,
>
    decreases n,
{
    if n == 0 {
        Ok(None)
    } else {
        match prefix_in(clauses, local, (n - 1) as nat) {
            Err(e) => Err(e),
            Ok(before) => {
                let c = text::trim_spec(clauses[n - 1]);
                if c.len() == 0 {
                    Ok(before)
                } else {
                    match turtle::cut_clause(c) {
                        None => Err(turtle::bad_clause(c, local)),
                        Some((word, rest)) => if word == "kb:idPrefix"@ {
                            match turtle::quoted_spec(rest) {
                                Ok(prefix) => Ok(Some(text::upper_spec(prefix))),
                                Err(e) => Err(e),
                            }
                        } else {
                            Ok(before)
                        },
                    }
                }
            },
        }
    }
}

/// The class that a statement declares, if it declares one.
pub open spec fn class_of(statement: Seq<char>) -> Result<Option<ClassView>, Seq<char>> {
    let head = turtle::head_spec(statement);
    if !turtle::declares(head, "owl:Class"@) {
        Ok(None)
    } else {
        match turtle::local_spec(text::first_word_spec(head)) {
            Err(e) => Err(e),
            Ok(local) => {
                let clauses = turtle::clauses_spec(statement);
                match prefix_in(clauses, local, clauses.len()) {
                    Err(e) => Err(e),
                    Ok(id_prefix) => Ok(
                        Some(ClassView { name: text::lower_spec(local), id_prefix }),
                    ),
                }
            },
        }
    }
}

pub open spec fn declared_classes(statements: Seq<Seq<char>>, n: nat) -> Result<
    Seq<ClassView>,
    Seq<char>,
>
    decreases n,
{
    if n == 0 {
        Ok(Seq::empty())
    } else {
        match declared_classes(statements, (n - 1) as nat) {
            Err(e) => Err(e),
            Ok(before) => match class_of(statements[n - 1]) {
                Err(e) => Err(e),
                Ok(None) => Ok(before),
                Ok(Some(c)) => Ok(before.push(c)),
            },
        }
    }
}

/// The classes that a text declares.
pub open spec fn classes_spec(ttl: Seq<char>) -> Result<Seq<ClassView>, Seq<char>> {
    match turtle::statements_spec(ttl) {
        Err(e) => Err(e),
        Ok(statements) => declared_classes(statements, statements.len()),
    }
}

proof fn lemma_prefix_stays_wrong(clauses: Seq<Seq<char>>, local: Seq<char>, m: nat, n: nat)
    requires
        m <= n,
        prefix_in(clauses, local, m) is Err,
    ensures
        prefix_in(clauses, local, n) == prefix_in(clauses, local, m),
    decreases n - m,
{
    if m < n {
        lemma_prefix_stays_wrong(clauses, local, m, (n - 1) as nat);
    }
}

proof fn lemma_classes_stay_wrong(statements: Seq<Seq<char>>, m: nat, n: nat)
    requires
        m <= n,
        declared_classes(statements, m) is Err,
    ensures
        declared_classes(statements, n) == declared_classes(statements, m),
    decreases n - m,
{
    if m < n {
        lemma_classes_stay_wrong(statements, m, (n - 1) as nat);
    }
}

fn read_prefix(clauses: &Vec<String>, local: &str) -> (r: Result<Option<String>, String>)
    ensures
        r is Ok == prefix_in(text::views(clauses@), local@, clauses@.len()) is Ok,
        r is Ok ==> option_view(r->Ok_0) == prefix_in(
            text::views(clauses@),
            local@,
            clauses@.len(),
        )->Ok_0,
        r is Err ==> r->Err_0@ == prefix_in(text::views(clauses@), local@, clauses@.len())->Err_0,
{
    let ghost all = text::views(clauses@);
    let mut found: Option<String> = None;
    let mut i: usize = 0;
    while i < clauses.len()
        invariant
            i <= clauses@.len(),
            all == text::views(clauses@),
            prefix_in(all, local@, i as nat) is Ok,
            prefix_in(all, local@, i as nat)->Ok_0 == option_view(found),
        decreases clauses@.len() - i,
    {
        let c: String = text::trim(clauses[i].as_str());
        if !c.as_str().is_empty() {
            let (word, rest) = match turtle::split_clause(c.as_str(), local) {
                Ok(parts) => parts,
                Err(message) => {
                    proof {
                        lemma_prefix_stays_wrong(all, local@, (i + 1) as nat, all.len());
                    }
                    return Err(message);
                },
            };
            if text::same(word.as_str(), "kb:idPrefix") {
                match turtle::quoted(rest.as_str()) {
                    Ok(prefix) => {
                        found = Some(text::upper(prefix.as_str()));
                    },
                    Err(message) => {
                        proof {
                            lemma_prefix_stays_wrong(all, local@, (i + 1) as nat, all.len());
                        }
                        return Err(message);
                    },
                }
            }
        }
        i = i + 1;
    }
    Ok(found)
}

fn read_class(statement: &str) -> (r: Result<Option<EntityClass>, String>)
    ensures
        r is Ok == class_of(statement@) is Ok,
        r is Ok ==> (match r->Ok_0 {
            Some(c) => class_of(statement@)->Ok_0 == Some(c@),
            None => class_of(statement@)->Ok_0 is None,
        }),
        r is Err ==> r->Err_0@ == class_of(statement@)->Err_0,
{
    let parts: Statement = turtle::read_statement(statement);
    if !turtle::head_declares(parts.head.as_str(), "owl:Class") {
        return Ok(None);
    }
    let subject: String = text::first_word(parts.head.as_str());
    let local: String = match turtle::kb_local(subject.as_str()) {
        Ok(local) => local,
        Err(message) => return Err(message),
    };
    match read_prefix(&parts.clauses, local.as_str()) {
        Ok(id_prefix) => Ok(Some(EntityClass { name: text::lower(local.as_str()), id_prefix })),
        Err(message) => Err(message),
    }
}

/// Reads the classes that a text declares.
pub fn parse_entity_classes(ttl: &str) -> (r: Result<Vec<EntityClass>, String>)
    ensures
        r is Ok == classes_spec(ttl@) is Ok,
        r is Ok ==> class_views(r->Ok_0@) == classes_spec(ttl@)->Ok_0,
        r is Err ==> r->Err_0@ == classes_spec(ttl@)->Err_0,
{
    let statements: Vec<String> = match turtle::logical_statements(ttl) {
        Ok(statements) => statements,
        Err(message) => return Err(message),
    };
    let ghost all = text::views(statements@);
    let mut list: Vec<EntityClass> = Vec::new();
    let mut i: usize = 0;
    assert(class_views(list@) =~= Seq::<ClassView>::empty());
    while i < statements.len()
        invariant
            i <= statements@.len(),
            all == text::views(statements@),
            turtle::statements_spec(ttl@) is Ok,
            turtle::statements_spec(ttl@)->Ok_0 == all,
            declared_classes(all, i as nat) is Ok,
            declared_classes(all, i as nat)->Ok_0 == class_views(list@),
        decreases statements@.len() - i,
    {
        match read_class(statements[i].as_str()) {
            Ok(Some(c)) => {
                let ghost before = class_views(list@);
                let ghost next = c@;
                list.push(c);
                assert(class_views(list@) =~= before.push(next));
            },
            Ok(None) => {},
            Err(message) => {
                proof {
                    lemma_classes_stay_wrong(all, (i + 1) as nat, all.len());
                }
                return Err(message);
            },
        }
        i = i + 1;
    }
    Ok(list)
}

// ---- the vocabulary ------------------------------------------------------------------------

/// The relations of a board whose ontology cannot be read.
pub open spec fn fallback_spec() -> Seq<PredicateView> {
    seq![
        PredicateView {
            name: "related"@,
            domain: Seq::empty(),
            range: Seq::empty(),
            inverse: None,
            doc: "informational link between any two items (the existing --related)"@,
        },
        PredicateView {
            name: "dependsOn"@,
            domain: Seq::empty(),
            range: Seq::empty(),
            inverse: Some("blocks"@),
            doc: "this item is BLOCKED BY the target (the existing --depends-on)"@,
        },
        PredicateView {
            name: "blocks"@,
            domain: Seq::empty(),
            range: Seq::empty(),
            inverse: Some("dependsOn"@),
            doc: "this item BLOCKS the target (inverse of dependsOn; stored one way only)"@,
        },
        PredicateView {
            name: "parent"@,
            domain: Seq::empty(),
            range: Seq::empty(),
            inverse: None,
            doc: "hierarchical containment — this item is contained by the target"@,
        },
        PredicateView {
            name: "implements"@,
            domain: seq!["expedition"@],
            range: seq!["voyage"@],
            inverse: Some("spawns"@),
            doc: "an expedition delivers work toward a voyage"@,
        },
        PredicateView {
            name: "spawns"@,
            domain: seq!["voyage"@],
            range: seq!["expedition"@],
            inverse: Some("implements"@),
            doc: "a voyage creates and coordinates an expedition"@,
        },
        PredicateView {
            name: "tests"@,
            domain: seq!["hypothesis"@],
            range: seq!["paper"@],
            inverse: None,
            doc: "a hypothesis is tested in the context of a paper"@,
        },
        PredicateView {
            name: "validates"@,
            domain: seq!["experiment"@],
            range: seq!["hypothesis"@],
            inverse: None,
            doc: "an experiment produces evidence for or against a hypothesis"@,
        },
        PredicateView {
            name: "measures"@,
            domain: seq!["measure"@],
            range: seq!["experiment"@, "hypothesis"@],
            inverse: None,
            doc: "a measure tracks the outcome of an experiment (or, per current practice, a hypothesis)"@,
        },
    ]
}

/// Up to two names, those that are not empty.
fn names_of(a: &str, b: &str) -> (r: Vec<String>)
    ensures
        a@.len() == 0 && b@.len() == 0 ==> text::views(r@) == Seq::<Seq<char>>::empty(),
        a@.len() > 0 && b@.len() == 0 ==> text::views(r@) == seq![a@],
        a@.len() > 0 && b@.len() > 0 ==> text::views(r@) == seq![a@, b@],
{
    let mut r: Vec<String> = Vec::new();
    if !a.is_empty() {
        r.push(text::owned(a));
    }
    if !b.is_empty() {
        r.push(text::owned(b));
    }
    assert(a@.len() == 0 && b@.len() == 0 ==> text::views(r@) =~= Seq::<Seq<char>>::empty());
    assert(a@.len() > 0 && b@.len() == 0 ==> text::views(r@) =~= seq![a@]);
    assert(a@.len() > 0 && b@.len() > 0 ==> text::views(r@) =~= seq![a@, b@]);
    r
}

fn fixed(
    name: &str,
    domain: Vec<String>,
    range: Vec<String>,
    inverse: Option<&str>,
    doc: &str,
) -> (r: Predicate)
    ensures
        r@ == (PredicateView {
            name: name@,
            domain: text::views(domain@),
            range: text::views(range@),
            inverse: match inverse {
                Some(s) => Some(s@),
                None => None,
            },
            doc: doc@,
        }),
{
    Predicate {
        name: text::owned(name),
        domain,
        range,
        inverse: match inverse {
            Some(s) => Some(text::owned(s)),
            None => None,
        },
        doc: text::owned(doc),
    }
}

/// The relations of a board whose ontology cannot be read.
pub fn fallback_predicates() -> (r: Vec<Predicate>)
    ensures
        predicate_views(r@) == fallback_spec(),
{
    proof {
        reveal_strlit("");
        reveal_strlit("expedition");
        reveal_strlit("voyage");
        reveal_strlit("hypothesis");
        reveal_strlit("paper");
        reveal_strlit("experiment");
        reveal_strlit("measure");
    }
    let mut list: Vec<Predicate> = Vec::new();
    list.push(
        fixed("related", names_of("", ""), names_of("", ""), None, "informational link between any two items (the existing --related)"),
    );
    list.push(
        fixed("dependsOn", names_of("", ""), names_of("", ""), Some("blocks"), "this item is BLOCKED BY the target (the existing --depends-on)"),
    );
    list.push(
        fixed("blocks", names_of("", ""), names_of("", ""), Some("dependsOn"), "this item BLOCKS the target (inverse of dependsOn; stored one way only)"),
    );
    list.push(
        fixed("parent", names_of("", ""), names_of("", ""), None, "hierarchical containment — this item is contained by the target"),
    );
    list.push(
        fixed("implements", names_of("expedition", ""), names_of("voyage", ""), Some("spawns"), "an expedition delivers work toward a voyage"),
    );
    list.push(
        fixed("spawns", names_of("voyage", ""), names_of("expedition", ""), Some("implements"), "a voyage creates and coordinates an expedition"),
    );
    list.push(
        fixed("tests", names_of("hypothesis", ""), names_of("paper", ""), None, "a hypothesis is tested in the context of a paper"),
    );
    list.push(
        fixed("validates", names_of("experiment", ""), names_of("hypothesis", ""), None, "an experiment produces evidence for or against a hypothesis"),
    );
    list.push(
        fixed("measures", names_of("measure", ""), names_of("experiment", "hypothesis"), None, "a measure tracks the outcome of an experiment (or, per current practice, a hypothesis)"),
    );
    assert(predicate_views(list@) =~= fallback_spec());
    list
}

/// The vocabulary that a text gives: what it declares, or the fixed one where it
/// cannot be read or declares nothing.
pub open spec fn vocabulary_spec(ttl: Seq<char>) -> Seq<PredicateView> {
    match properties_spec(ttl) {
        Ok(list) => if list.len() > 0 {
            list
        } else {
            fallback_spec()
        },
        Err(_) => fallback_spec(),
    }
}

pub fn vocabulary_from(ttl: &str) -> (r: Vec<Predicate>)
    ensures
        predicate_views(r@) == vocabulary_spec(ttl@),
{
    match parse_object_properties(ttl) {
        Ok(list) => if list.len() > 0 {
            list
        } else {
            fallback_predicates()
        },
        Err(_) => fallback_predicates(),
    }
}

/// The vocabulary of the board.
pub fn predicates() -> (r: Vec<Predicate>)
    ensures
        predicate_views(r@) == vocabulary_spec(ontology::kanban_text()),
{
    vocabulary_from(ontology::kanban_ttl().as_str())
}

/// The classes of a board whose ontology cannot be read: the types of items and the
/// three classes above them.
pub open spec fn fallback_classes_spec() -> Seq<ClassView> {
    Seq::new(
        16,
        |i: int| (ClassView { name: fallback_class_names()[i], id_prefix: None }),
    )
}

pub open spec fn fallback_class_names() -> Seq<Seq<char>> {
    seq![
        "expedition"@,
        "voyage"@,
        "campaign"@,
        "chore"@,
        "hazard"@,
        "signal"@,
        "feature"@,
        "paper"@,
        "hypothesis"@,
        "experiment"@,
        "measure"@,
        "idea"@,
        "literature"@,
        "item"@,
        "devitem"@,
        "researchitem"@,
    ]
}

fn plain_class(name: &str) -> (r: EntityClass)
    ensures
        r@ == (ClassView { name: name@, id_prefix: None }),
{
    EntityClass { name: text::owned(name), id_prefix: None }
}

fn fallback_classes() -> (r: Vec<EntityClass>)
    ensures
        class_views(r@) == fallback_classes_spec(),
{
    let mut list: Vec<EntityClass> = Vec::new();
    list.push(plain_class("expedition"));
    list.push(plain_class("voyage"));
    list.push(plain_class("campaign"));
    list.push(plain_class("chore"));
    list.push(plain_class("hazard"));
    list.push(plain_class("signal"));
    list.push(plain_class("feature"));
    list.push(plain_class("paper"));
    list.push(plain_class("hypothesis"));
    list.push(plain_class("experiment"));
    list.push(plain_class("measure"));
    list.push(plain_class("idea"));
    list.push(plain_class("literature"));
    list.push(plain_class("item"));
    list.push(plain_class("devitem"));
    list.push(plain_class("researchitem"));
    assert(class_views(list@) =~= fallback_classes_spec());
    list
}

/// The classes that a text gives.
pub open spec fn known_classes_spec(ttl: Seq<char>) -> Seq<ClassView> {
    match classes_spec(ttl) {
        Ok(list) => if list.len() > 0 {
            list
        } else {
            fallback_classes_spec()
        },
        Err(_) => fallback_classes_spec(),
    }
}

pub fn classes_from(ttl: &str) -> (r: Vec<EntityClass>)
    ensures
        class_views(r@) == known_classes_spec(ttl@),
{
    match parse_entity_classes(ttl) {
        Ok(list) => if list.len() > 0 {
            list
        } else {
            fallback_classes()
        },
        Err(_) => fallback_classes(),
    }
}

/// The classes of the board.
pub fn classes() -> (r: Vec<EntityClass>)
    ensures
        class_views(r@) == known_classes_spec(ontology::kanban_text()),
{
    classes_from(ontology::kanban_ttl().as_str())
}

// ---- looking relations up ----------------------------------------------------------------------

/// A name as it is compared: in small letters, without the white space around it and
/// without underscores and hyphens.
pub open spec fn plain_name(name: Seq<char>) -> Seq<char> {
    text::lower_spec(text::trim_spec(name)).filter(|c: char| c != '_' && c != '-')
}

pub fn plain(name: &str) -> (r: String)
    ensures
        r@ == plain_name(name@),
{
    let trimmed: String = text::trim(name);
    let low: String = text::lower(trimmed.as_str());
    let ghost all = low@;
    let ghost keep = |c: char| c != '_' && c != '-';
    let mut r: String = String::new();
    assert(r@ =~= all.take(0).filter(keep));
    for c in it: low.as_str().chars()
        invariant
            it.seq() == all,
            keep == (|c: char| c != '_' && c != '-'),
            r@ == all.take(it.index() as int).filter(keep),
    {
        proof {
            assert(all.take(it.index() + 1) =~= all.take(it.index() as int).push(c));
            all.take(it.index() as int).lemma_filter_push(c, keep);
        }
        if c != '_' && c != '-' {
            r.push(c);
        }
    }
    assert(all.take(all.len() as int) =~= all);
    r
}

/// The position of the relation with a name, however it is spelled.
pub open spec fn position_of(vocab: Seq<PredicateView>, name: Seq<char>) -> Option<int>
    decreases vocab.len(),
{
    if vocab.len() == 0 {
        None
    } else {
        match position_of(vocab.drop_last(), name) {
            Some(i) => Some(i),
            None => if text::lower_spec(vocab.last().name) == plain_name(name) {
                Some(vocab.len() - 1)
            } else {
                None
            },
        }
    }
}

/// The relation with a name, however it is spelled.
pub open spec fn lookup_spec(vocab: Seq<PredicateView>, name: Seq<char>) -> Option<PredicateView> {
    match position_of(vocab, name) {
        Some(i) => Some(vocab[i]),
        None => None,
    }
}

pub proof fn lemma_position_of(vocab: Seq<PredicateView>, name: Seq<char>, i: int)
    requires
        0 <= i <= vocab.len(),
        forall|k: int|
            0 <= k < i ==> text::lower_spec((#[trigger] vocab[k]).name) != plain_name(name),
        i < vocab.len() ==> text::lower_spec(vocab[i].name) == plain_name(name),
    ensures
        position_of(vocab, name) == (if i < vocab.len() {
            Some(i)
        } else {
            None::<int>
        }),
    decreases vocab.len(),
{
    if vocab.len() > 0 {
        let shorter = vocab.drop_last();
        assert forall|k: int| 0 <= k < shorter.len() implies shorter[k] == #[trigger] vocab[k] by {}
        if i < vocab.len() - 1 {
            lemma_position_of(shorter, name, i);
        } else {
            lemma_position_of(shorter, name, vocab.len() - 1);
        }
    }
}

pub fn lookup_in(vocab: &Vec<Predicate>, name: &str) -> (r: Option<Predicate>)
    ensures
        r is Some == lookup_spec(predicate_views(vocab@), name@) is Some,
        r is Some ==> r->0@ == lookup_spec(predicate_views(vocab@), name@)->0,
{
    let ghost views = predicate_views(vocab@);
    let want: String = plain(name);
    let mut i: usize = 0;
    while i < vocab.len()
        invariant
            i <= vocab@.len(),
            views == predicate_views(vocab@),
            want@ == plain_name(name@),
            forall|k: int|
                0 <= k < i ==> text::lower_spec((#[trigger] views[k]).name) != plain_name(name@),
        decreases vocab@.len() - i,
    {
        let low: String = text::lower(vocab[i].name.as_str());
        if text::same(low.as_str(), want.as_str()) {
            proof {
                lemma_position_of(views, name@, i as int);
            }
            return Some(vocab[i].clone());
        }
        i = i + 1;
    }
    proof {
        lemma_position_of(views, name@, i as int);
    }
    None
}

/// The relation with a name, however it is spelled: `depends_on`, `depends-on` and
/// `DependsOn` all name `dependsOn`.
pub fn lookup(name: &str) -> (r: Option<Predicate>)
    ensures
        r is Some == lookup_spec(vocabulary_spec(ontology::kanban_text()), name@) is Some,
        r is Some ==> r->0@ == lookup_spec(vocabulary_spec(ontology::kanban_text()), name@)->0,
{
    let vocab: Vec<Predicate> = predicates();
    lookup_in(&vocab, name)
}

pub open spec fn names_spec(vocab: Seq<PredicateView>) -> Seq<Seq<char>> {
    Seq::new(vocab.len(), |i: int| vocab[i].name)
}

pub fn names_in(vocab: &Vec<Predicate>) -> (r: Vec<String>)
    ensures
        text::views(r@) == names_spec(predicate_views(vocab@)),
{
    let mut r: Vec<String> = Vec::new();
    let mut i: usize = 0;
    while i < vocab.len()
        invariant
            i <= vocab@.len(),
            r@.len() == i,
            forall|k: int| 0 <= k < i ==> (#[trigger] r@[k])@ == vocab@[k].name@,
        decreases vocab@.len() - i,
    {
        r.push(vocab[i].name.clone());
        i = i + 1;
    }
    assert(text::views(r@) =~= names_spec(predicate_views(vocab@)));
    r
}

/// The names of all relations.
pub fn names() -> (r: Vec<String>)
    ensures
        text::views(r@) == names_spec(vocabulary_spec(ontology::kanban_text())),
{
    let vocab: Vec<Predicate> = predicates();
    names_in(&vocab)
}

// ---- edges ------------------------------------------------------------------------------------

/// Why an edge was refused.
#[derive(Debug, Clone, PartialEq, Eq)]
pub enum EdgeError {
    /// The relation is not in the vocabulary.
    UnknownPredicate { given: String, known: Vec<String> },
    /// The source's type is not allowed.
    BadDomain { predicate: String, got: String, allowed: Vec<String> },
    /// The target's type is not allowed.
    BadRange { predicate: String, got: String, allowed: Vec<String> },
    /// An item cannot relate to itself.
    SelfEdge { id: String },
}

#[verifier::ext_equal]
pub enum EdgeErrorView {
    UnknownPredicate { given: Seq<char>, known: Seq<Seq<char>> },
    BadDomain { predicate: Seq<char>, got: Seq<char>, allowed: Seq<Seq<char>> },
    BadRange { predicate: Seq<char>, got: Seq<char>, allowed: Seq<Seq<char>> },
    SelfEdge { id: Seq<char> },
}

impl View for EdgeError {
    type V = EdgeErrorView;

    open spec fn view(&self) -> EdgeErrorView {
        match *self {
            EdgeError::UnknownPredicate { given, known } => EdgeErrorView::UnknownPredicate {
                given: given@,
                known: text::views(known@),
            },
            EdgeError::BadDomain { predicate, got, allowed } => EdgeErrorView::BadDomain {
                predicate: predicate@,
                got: got@,
                allowed: text::views(allowed@),
            },
            EdgeError::BadRange { predicate, got, allowed } => EdgeErrorView::BadRange {
                predicate: predicate@,
                got: got@,
                allowed: text::views(allowed@),
            },
            EdgeError::SelfEdge { id } => EdgeErrorView::SelfEdge { id: id@ },
        }
    }
}

/// A refusal in words.
pub open spec fn edge_message(error: EdgeErrorView) -> Seq<char> {
    match error {
        EdgeErrorView::UnknownPredicate { given, known } => "unknown relationship '"@ + given
            + "' — known: "@ + text::join_spec(known, ", "@),
        EdgeErrorView::BadDomain { predicate, got, allowed } => "'"@ + predicate
            + "' cannot start from a "@ + got + " (allowed: "@ + text::join_spec(allowed, ", "@)
            + ")"@,
        EdgeErrorView::BadRange { predicate, got, allowed } => "'"@ + predicate
            + "' cannot point at a "@ + got + " (allowed: "@ + text::join_spec(allowed, ", "@)
            + ")"@,
        EdgeErrorView::SelfEdge { id } => id + " cannot relate to itself"@,
    }
}

impl EdgeError {
    /// The refusal in words.
    pub fn message(&self) -> (r: String)
        ensures
            r@ == edge_message(self@),
    {
        match self {
            EdgeError::UnknownPredicate { given, known } => {
                let mut r: String = text::owned("unknown relationship '");
                r.append(given.as_str());
                r.append("' — known: ");
                let list: String = text::join(known, ", ");
                r.append(list.as_str());
                r
            },
            EdgeError::BadDomain { predicate, got, allowed } => {
                let mut r: String = text::owned("'");
                r.append(predicate.as_str());
                r.append("' cannot start from a ");
                r.append(got.as_str());
                r.append(" (allowed: ");
                let list: String = text::join(allowed, ", ");
                r.append(list.as_str());
                r.append(")");
                r
            },
            EdgeError::BadRange { predicate, got, allowed } => {
                let mut r: String = text::owned("'");
                r.append(predicate.as_str());
                r.append("' cannot point at a ");
                r.append(got.as_str());
                r.append(" (allowed: ");
                let list: String = text::join(allowed, ", ");
                r.append(list.as_str());
                r.append(")");
                r
            },
            EdgeError::SelfEdge { id } => {
                let mut r: String = id.clone();
                r.append(" cannot relate to itself");
                r
            },
        }
    }
}

/// Whether a list of types allows a type: it is empty or names it, in whatever case.
pub open spec fn allows(list: Seq<Seq<char>>, item_type: Seq<char>) -> bool {
    list.len() == 0 || exists|i: int|
        0 <= i < list.len() && text::lower_spec(#[trigger] list[i]) == text::lower_spec(item_type)
}

pub fn list_allows(list: &Vec<String>, item_type: &str) -> (r: bool)
    ensures
        r == allows(text::views(list@), item_type@),
{
    if list.len() == 0 {
        return true;
    }
    let ghost all = text::views(list@);
    let mut i: usize = 0;
    while i < list.len()
        invariant
            i <= list@.len(),
            all == text::views(list@),
            forall|k: int|
                0 <= k < i ==> text::lower_spec(#[trigger] all[k]) != text::lower_spec(item_type@),
        decreases list@.len() - i,
    {
        if text::same_ignoring_case(list[i].as_str(), item_type) {
            assert(text::lower_spec(all[i as int]) == text::lower_spec(item_type@));
            return true;
        }
        i = i + 1;
    }
    false
}

/// The verdict on an edge. The type of a target that cannot be found is not checked.
pub open spec fn edge_verdict(
    vocab: Seq<PredicateView>,
    predicate: Seq<char>,
    source_id: Seq<char>,
    source_type: Seq<char>,
    target_id: Seq<char>,
    target_type: Option<Seq<char>>,
) -> Result<PredicateView, EdgeErrorView> {
    match lookup_spec(vocab, predicate) {
        None => Err(
            EdgeErrorView::UnknownPredicate { given: predicate, known: names_spec(vocab) },
        ),
        Some(p) => if text::lower_spec(source_id) == text::lower_spec(target_id) {
            Err(EdgeErrorView::SelfEdge { id: source_id })
        } else if !allows(p.domain, source_type) {
            Err(
                EdgeErrorView::BadDomain {
                    predicate: p.name,
                    got: source_type,
                    allowed: p.domain,
                },
            )
        } else if target_type is Some && !allows(p.range, target_type->0) {
            Err(
                EdgeErrorView::BadRange {
                    predicate: p.name,
                    got: target_type->0,
                    allowed: p.range,
                },
            )
        } else {
            Ok(p)
        },
    }
}

/// What an optional borrowed text holds.
pub open spec fn str_view(s: Option<&str>) -> Option<Seq<char>> {
    match s {
        Some(s) => Some(s@),
        None => None,
    }
}

pub fn validate_edge_in(
    vocab: &Vec<Predicate>,
    predicate: &str,
    source_id: &str,
    source_type: &str,
    target_id: &str,
    target_type: Option<&str>,
) -> (r: Result<Predicate, EdgeError>)
    ensures
        ({
            let verdict = edge_verdict(
                predicate_views(vocab@),
                predicate@,
                source_id@,
                source_type@,
                target_id@,
                str_view(target_type),
            );
            &&& r is Ok == verdict is Ok
            &&& r is Ok ==> r->Ok_0@ == verdict->Ok_0
            &&& r is Err ==> r->Err_0@ == verdict->Err_0
        }),
{
    let p: Predicate = match lookup_in(vocab, predicate) {
        Some(p) => p,
        None => return Err(
            EdgeError::UnknownPredicate { given: text::owned(predicate), known: names_in(vocab) },
        ),
    };
    if text::same_ignoring_case(source_id, target_id) {
        return Err(EdgeError::SelfEdge { id: text::owned(source_id) });
    }
    if !list_allows(&p.domain, source_type) {
        return Err(
            EdgeError::BadDomain {
                predicate: p.name.clone(),
                got: text::owned(source_type),
                allowed: text::clone_strings(&p.domain),
            },
        );
    }
    if let Some(target) = target_type {
        if !list_allows(&p.range, target) {
            return Err(
                EdgeError::BadRange {
                    predicate: p.name.clone(),
                    got: text::owned(target),
                    allowed: text::clone_strings(&p.range),
                },
            );
        }
    }
    Ok(p)
}

/// Whether an edge is allowed by the board's vocabulary. The type of a target that
/// cannot be found is not checked: an edge may lead to another board.
pub fn validate_edge(
    predicate: &str,
    source_id: &str,
    source_type: &str,
    target_id: &str,
    target_type: Option<&str>,
) -> (r: Result<Predicate, EdgeError>)
    ensures
        ({
            let verdict = edge_verdict(
                vocabulary_spec(ontology::kanban_text()),
                predicate@,
                source_id@,
                source_type@,
                target_id@,
                str_view(target_type),
            );
            &&& r is Ok == verdict is Ok
            &&& r is Ok ==> r->Ok_0@ == verdict->Ok_0
            &&& r is Err ==> r->Err_0@ == verdict->Err_0
        }),
{
    let vocab: Vec<Predicate> = predicates();
    validate_edge_in(&vocab, predicate, source_id, source_type, target_id, target_type)
}

/// A relation and its target, written with a colon between them. Only the first colon
/// counts.
pub open spec fn spec_parts(spec: Seq<char>) -> Option<(Seq<char>, Seq<char>)> {
    match text::split_once_spec(spec, ':') {
        None => None,
        Some((predicate, target)) => {
            let p = text::trim_spec(predicate);
            let t = text::trim_spec(target);
            if p.len() > 0 && t.len() > 0 {
                Some((p, t))
            } else {
                None
            }
        },
    }
}

/// Reads `predicate:TARGET-ID`.
pub fn parse_spec(spec: &str) -> (r: Option<(String, String)>)
    ensures
        r is Some == spec_parts(spec@) is Some,
        r is Some ==> (r->0).0@ == (spec_parts(spec@)->0).0 && (r->0).1@ == (spec_parts(
            spec@,
        )->0).1,
{
    match text::split_once(spec, ':') {
        None => None,
        Some((predicate, target)) => {
            let p: String = text::trim(predicate.as_str());
            let t: String = text::trim(target.as_str());
            if !p.as_str().is_empty() && !t.as_str().is_empty() {
                Some((p, t))
            } else {
                None
            }
        },
    }
}

/// The column of an item's table that the edges of a relation are listed in too.
pub open spec fn flat_column_spec(vocab: Seq<PredicateView>, predicate: Seq<char>) -> Option<
    Seq<char>,
> {
    match lookup_spec(vocab, predicate) {
        None => None,
        Some(p) => if p.name == "related"@ {
            Some("related"@)
        } else if p.name == "dependsOn"@ {
            Some("depends_on"@)
        } else {
            None
        },
    }
}

pub fn flat_column_in(vocab: &Vec<Predicate>, predicate: &str) -> (r: Option<&'static str>)
    ensures
        str_view(r) == flat_column_spec(predicate_views(vocab@), predicate@),
{
    match lookup_in(vocab, predicate) {
        None => None,
        Some(p) => if text::same(p.name.as_str(), "related") {
            Some("related")
        } else if text::same(p.name.as_str(), "dependsOn") {
            Some("depends_on")
        } else {
            None
        },
    }
}

/// The column of an item's table that the edges of a relation are listed in too, if
/// they are.
pub fn flat_column_for(predicate: &str) -> (r: Option<&'static str>)
    ensures
        str_view(r) == flat_column_spec(vocabulary_spec(ontology::kanban_text()), predicate@),
{
    let vocab: Vec<Predicate> = predicates();
    flat_column_in(&vocab, predicate)
}

// ---- types of ids ----------------------------------------------------------------------------

/// The type of item that a prefix in capitals stands for, if it is one of the
/// board's.
pub open spec fn board_type(prefix: Seq<char>) -> Option<Seq<char>> {
    if prefix == "EX"@ || prefix == "EXP"@ {
        Some("expedition"@)
    } else if prefix == "VY"@ || prefix == "VOY"@ {
        Some("voyage"@)
    } else if prefix == "CA"@ {
        Some("campaign"@)
    } else if prefix == "CH"@ || prefix == "CHORE"@ {
        Some("chore"@)
    } else if prefix == "HZ"@ {
        Some("hazard"@)
    } else if prefix == "SG"@ || prefix == "SIG"@ {
        Some("signal"@)
    } else if prefix == "FT"@ || prefix == "FEAT"@ {
        Some("feature"@)
    } else if prefix == "H"@ {
        Some("hypothesis"@)
    } else if prefix == "EXPR"@ {
        Some("experiment"@)
    } else if prefix == "M"@ {
        Some("measure"@)
    } else if prefix == "PAPER"@ {
        Some("paper"@)
    } else if prefix == "LIT"@ {
        Some("literature"@)
    } else if prefix == "IDEA"@ {
        Some("idea"@)
    } else {
        None
    }
}

fn find_board_type(p: &str) -> (r: Option<&'static str>)
    ensures
        str_view(r) == board_type(p@),
{
    if text::same(p, "EX") || text::same(p, "EXP") {
        Some("expedition")
    } else if text::same(p, "VY") || text::same(p, "VOY") {
        Some("voyage")
    } else if text::same(p, "CA") {
        Some("campaign")
    } else if text::same(p, "CH") || text::same(p, "CHORE") {
        Some("chore")
    } else if text::same(p, "HZ") {
        Some("hazard")
    } else if text::same(p, "SG") || text::same(p, "SIG") {
        Some("signal")
    } else if text::same(p, "FT") || text::same(p, "FEAT") {
        Some("feature")
    } else if text::same(p, "H") {
        Some("hypothesis")
    } else if text::same(p, "EXPR") {
        Some("experiment")
    } else if text::same(p, "M") {
        Some("measure")
    } else if text::same(p, "PAPER") {
        Some("paper")
    } else if text::same(p, "LIT") {
        Some("literature")
    } else if text::same(p, "IDEA") {
        Some("idea")
    } else {
        None
    }
}

/// The first class with an id prefix.
pub open spec fn class_with_prefix(list: Seq<ClassView>, prefix: Seq<char>) -> Option<Seq<char>>
    decreases list.len(),
{
    if list.len() == 0 {
        None
    } else {
        match class_with_prefix(list.drop_last(), prefix) {
            Some(name) => Some(name),
            None => if list.last().id_prefix == Some(prefix) {
                Some(list.last().name)
            } else {
                None
            },
        }
    }
}

/// The prefix of an id: what stands before its first hyphen, in capitals.
pub open spec fn id_prefix(id: Seq<char>) -> Seq<char> {
    text::upper_spec(text::split_spec(id, '-')[0])
}

/// The type that an id's prefix stands for: one of the board's, or else a class that
/// declares the prefix.
pub open spec fn id_type_spec(list: Seq<ClassView>, id: Seq<char>) -> Option<Seq<char>> {
    match board_type(id_prefix(id)) {
        Some(name) => Some(name),
        None => class_with_prefix(list, id_prefix(id)),
    }
}

proof fn lemma_class_with_prefix(list: Seq<ClassView>, prefix: Seq<char>, i: int)
    requires
        0 <= i <= list.len(),
        forall|k: int| 0 <= k < i ==> (#[trigger] list[k]).id_prefix != Some(prefix),
        i < list.len() ==> list[i].id_prefix == Some(prefix),
    ensures
        class_with_prefix(list, prefix) == (if i < list.len() {
            Some(list[i].name)
        } else {
            None::<Seq<char>>
        }),
    decreases list.len(),
{
    if list.len() > 0 {
        let shorter = list.drop_last();
        assert forall|k: int| 0 <= k < shorter.len() implies shorter[k] == #[trigger] list[k] by {}
        if i < list.len() - 1 {
            lemma_class_with_prefix(shorter, prefix, i);
        } else {
            lemma_class_with_prefix(shorter, prefix, list.len() - 1);
        }
    }
}

pub fn type_from_id_in(list: &Vec<EntityClass>, id: &str) -> (r: Option<String>)
    ensures
        option_view(r) == id_type_spec(class_views(list@), id@),
{
    let pieces: Vec<String> = text::split(id, '-');
    let prefix: String = text::upper(pieces[0].as_str());
    assert(text::views(pieces@)[0] == pieces@[0]@);
    if let Some(name) = find_board_type(prefix.as_str()) {
        return Some(text::owned(name));
    }
    let ghost views = class_views(list@);
    let mut i: usize = 0;
    while i < list.len()
        invariant
            i <= list@.len(),
            views == class_views(list@),
            prefix@ == id_prefix(id@),
            board_type(id_prefix(id@)) is None,
            forall|k: int| 0 <= k < i ==> (#[trigger] views[k]).id_prefix != Some(id_prefix(id@)),
        decreases list@.len() - i,
    {
        assert(views[i as int] == list@[i as int]@);
        if let Some(p) = &list[i].id_prefix {
            if text::same(p.as_str(), prefix.as_str()) {
                proof {
                    lemma_class_with_prefix(views, id_prefix(id@), i as int);
                }
                return Some(list[i].name.clone());
            }
        }
        i = i + 1;
    }
    proof {
        lemma_class_with_prefix(views, id_prefix(id@), i as int);
    }
    None
}

/// The type that an id's prefix stands for.
pub fn type_from_id(id: &str) -> (r: Option<String>)
    ensures
        option_view(r) == id_type_spec(known_classes_spec(ontology::kanban_text()), id@),
{
    let list: Vec<EntityClass> = classes();
    type_from_id_in(&list, id)
}

/// The type of an id: what the store says, or else what its prefix stands for.
pub fn resolve_type(id: &str, from_store: Option<&str>) -> (r: Option<String>)
    ensures
        option_view(r) == (match from_store {
            Some(s) => Some(s@),
            None => id_type_spec(known_classes_spec(ontology::kanban_text()), id@),
        }),
{
    match from_store {
        Some(s) => Some(text::owned(s)),
        None => type_from_id(id),
    }
}

/// Whether items of a type may be the source of a relation.
pub open spec fn domain_allows_spec(
    vocab: Seq<PredicateView>,
    predicate: Seq<char>,
    t: ItemType,
) -> bool {
    match lookup_spec(vocab, predicate) {
        Some(p) => allows(p.domain, item_type::name_of_type(t)),
        None => false,
    }
}

pub fn domain_allows_in(vocab: &Vec<Predicate>, predicate: &str, t: ItemType) -> (r: bool)
    ensures
        r == domain_allows_spec(predicate_views(vocab@), predicate@, t),
{
    match lookup_in(vocab, predicate) {
        Some(p) => list_allows(&p.domain, t.as_str()),
        None => false,
    }
}

/// Whether items of a type may be the source of a relation of the board.
pub fn domain_allows(predicate: &str, t: ItemType) -> (r: bool)
    ensures
        r == domain_allows_spec(vocabulary_spec(ontology::kanban_text()), predicate@, t),
{
    let vocab: Vec<Predicate> = predicates();
    domain_allows_in(&vocab, predicate, t)
}

// ---- what holds of the vocabulary ----------------------------------------------------------------

/// Names that differ only in case, underscores, hyphens and the white space around
/// them name the same relation.
pub proof fn law_spelling_does_not_matter(vocab: Seq<PredicateView>, a: Seq<char>, b: Seq<char>)
    requires
        plain_name(a) == plain_name(b),
    ensures
        lookup_spec(vocab, a) == lookup_spec(vocab, b),
{
    lemma_spelling(vocab, a, b);
}

proof fn lemma_spelling(vocab: Seq<PredicateView>, a: Seq<char>, b: Seq<char>)
    requires
        plain_name(a) == plain_name(b),
    ensures
        position_of(vocab, a) == position_of(vocab, b),
    decreases vocab.len(),
{
    if vocab.len() > 0 {
        lemma_spelling(vocab.drop_last(), a, b);
    }
}

/// Whether every inverse that a vocabulary names is in it.
pub open spec fn inverses_resolve(vocab: Seq<PredicateView>) -> bool {
    forall|i: int|
        0 <= i < vocab.len() && (#[trigger] vocab[i]).inverse is Some ==> has_name(
            vocab,
            vocab[i].inverse->0,
        )
}

/// Whatever the ontology's text, every inverse that the vocabulary names is in the
/// vocabulary.
pub proof fn law_inverses_resolve(ttl: Seq<char>)
    ensures
        inverses_resolve(vocabulary_spec(ttl)),
{
    let vocab = vocabulary_spec(ttl);
    if vocab == fallback_spec() {
        assert(vocab[1].name == "dependsOn"@);
        assert(vocab[2].name == "blocks"@);
        assert(vocab[4].name == "implements"@);
        assert(vocab[5].name == "spawns"@);
    } else {
        assert(missing_inverse(vocab, vocab.len()) is None);
        assert forall|i: int|
            0 <= i < vocab.len() && (#[trigger] vocab[i]).inverse is Some implies has_name(
            vocab,
            vocab[i].inverse->0,
        ) by {
            if missing_inverse(vocab, (i + 1) as nat) is Some {
                lemma_inverse_stays_missing(vocab, (i + 1) as nat, vocab.len());
            }
        }
    }
}

/// Whether relations name each other as inverses: what a relation's inverse is looked up
/// as has that relation as its own inverse.
pub open spec fn inverses_agree(vocab: Seq<PredicateView>) -> bool {
    forall|i: int|
        0 <= i < vocab.len() && (#[trigger] vocab[i]).inverse is Some ==> points_back(vocab, i)
}

pub open spec fn points_back(vocab: Seq<PredicateView>, i: int) -> bool {
    match lookup_spec(vocab, vocab[i].inverse->0) {
        Some(other) => other.inverse == Some(vocab[i].name),
        None => false,
    }
}

proof fn lemma_position_bounds(vocab: Seq<PredicateView>, name: Seq<char>)
    ensures
        position_of(vocab, name) matches Some(i) ==> 0 <= i < vocab.len(),
    decreases vocab.len(),
{
    if vocab.len() > 0 {
        lemma_position_bounds(vocab.drop_last(), name);
    }
}

/// In a vocabulary whose inverses agree, the inverse of a relation's inverse is the
/// relation itself, however it is spelled.
pub proof fn law_inverse_of_inverse(vocab: Seq<PredicateView>, name: Seq<char>)
    requires
        inverses_agree(vocab),
        lookup_spec(vocab, name) is Some,
        lookup_spec(vocab, name)->0.inverse is Some,
    ensures
        lookup_spec(vocab, lookup_spec(vocab, name)->0.inverse->0) is Some,
        lookup_spec(vocab, lookup_spec(vocab, name)->0.inverse->0)->0.inverse == Some(
            lookup_spec(vocab, name)->0.name,
        ),
{
    lemma_position_bounds(vocab, name);
    let i = position_of(vocab, name)->0;
    assert(points_back(vocab, i));
}

proof fn lemma_keeps_all(s: Seq<char>, keep: spec_fn(char) -> bool)
    requires
        forall|i: int| 0 <= i < s.len() ==> keep(#[trigger] s[i]),
    ensures
        s.filter(keep) == s,
    decreases s.len(),
{
    if s.len() == 0 {
        assert(s.filter(keep) =~= s);
    } else {
        let shorter = s.drop_last();
        assert forall|i: int| 0 <= i < shorter.len() implies keep(#[trigger] shorter[i]) by {
            assert(shorter[i] == s[i]);
        }
        lemma_keeps_all(shorter, keep);
        shorter.lemma_filter_push(s.last(), keep);
        assert(shorter.push(s.last()) =~= s);
        assert(keep(s[s.len() - 1]));
    }
}

/// A name of letters is compared as it is, in small letters.
pub proof fn lemma_letters(s: Seq<char>)
    requires
        forall|i: int|
            0 <= i < s.len() ==> 'A' <= (#[trigger] s[i]) <= 'Z' || 'a' <= s[i] <= 'z',
    ensures
        plain_name(s) == text::lower_spec(s),
{
    assert(text::trim_spec(s) == s);
    let low = text::lower_spec(s);
    let keep = |c: char| c != '_' && c != '-';
    assert forall|i: int| 0 <= i < low.len() implies keep(#[trigger] low[i]) by {
        let c = s[i];
        assert(low[i] == text::lower_char(c));
        if 'A' <= c <= 'Z' {
            assert(97 <= text::lower_char(c) as u32 <= 122);
        }
    }
    lemma_keeps_all(low, keep);
}

/// The inverses of the fixed vocabulary agree.
pub proof fn law_fixed_inverses_agree()
    ensures
        inverses_agree(fallback_spec()),
{
    let vocab = fallback_spec();
    reveal_strlit("related");
    reveal_strlit("dependsOn");
    reveal_strlit("blocks");
    reveal_strlit("parent");
    reveal_strlit("implements");
    reveal_strlit("spawns");
    lemma_letters("dependsOn"@);
    lemma_letters("blocks"@);
    lemma_letters("implements"@);
    lemma_letters("spawns"@);
    let related = text::lower_spec("related"@);
    let depends = text::lower_spec("dependsOn"@);
    let blocks = text::lower_spec("blocks"@);
    let parent = text::lower_spec("parent"@);
    let implements = text::lower_spec("implements"@);
    let spawns = text::lower_spec("spawns"@);
    assert(related.len() == 7 && depends.len() == 9 && implements.len() == 10);
    assert(blocks.len() == 6 && parent.len() == 6 && spawns.len() == 6);
    assert(blocks[0] == 'b' && parent[0] == 'p' && spawns[0] == 's');
    lemma_position_of(vocab, "dependsOn"@, 1);
    lemma_position_of(vocab, "blocks"@, 2);
    lemma_position_of(vocab, "implements"@, 4);
    lemma_position_of(vocab, "spawns"@, 5);
    assert(points_back(vocab, 1) && points_back(vocab, 2));
    assert(points_back(vocab, 4) && points_back(vocab, 5));
}

/// A text that cannot be read gives the fixed vocabulary, never an open one.
pub proof fn law_vocabulary_fails_closed(ttl: Seq<char>)
    requires
        properties_spec(ttl) is Err,
    ensures
        vocabulary_spec(ttl) == fallback_spec(),
{
}

/// An edge with a relation outside the vocabulary is refused, whatever it joins.
pub proof fn law_unknown_relations_are_refused(
    vocab: Seq<PredicateView>,
    predicate: Seq<char>,
    source_id: Seq<char>,
    source_type: Seq<char>,
    target_id: Seq<char>,
    target_type: Option<Seq<char>>,
)
    requires
        lookup_spec(vocab, predicate) is None,
    ensures
        edge_verdict(vocab, predicate, source_id, source_type, target_id, target_type) is Err,
{
}

/// No item may relate to itself, whatever the case of its id.
pub proof fn law_no_self_edges(
    vocab: Seq<PredicateView>,
    predicate: Seq<char>,
    source_id: Seq<char>,
    source_type: Seq<char>,
    target_id: Seq<char>,
    target_type: Option<Seq<char>>,
)
    requires
        text::lower_spec(source_id) == text::lower_spec(target_id),
    ensures
        edge_verdict(vocab, predicate, source_id, source_type, target_id, target_type) is Err,
{
}

/// A target whose type is not known is never a reason to refuse an edge.
pub proof fn law_unknown_targets_pass(
    vocab: Seq<PredicateView>,
    predicate: Seq<char>,
    source_id: Seq<char>,
    source_type: Seq<char>,
    target_id: Seq<char>,
    target_type: Option<Seq<char>>,
)
    requires
        edge_verdict(vocab, predicate, source_id, source_type, target_id, target_type) is Ok,
    ensures
        edge_verdict(vocab, predicate, source_id, source_type, target_id, None) is Ok,
{
}

/// Every prefix that ids of a type start with stands for that type.
pub proof fn law_prefixes_name_their_types(t: ItemType)
    ensures
        board_type(item_type::type_prefix(t)) == Some(item_type::name_of_type(t)),
{
    reveal_strlit("EX");
    reveal_strlit("EXP");
    reveal_strlit("VY");
    reveal_strlit("VOY");
    reveal_strlit("CA");
    reveal_strlit("CH");
    reveal_strlit("CHORE");
    reveal_strlit("HZ");
    reveal_strlit("SG");
    reveal_strlit("SIG");
    reveal_strlit("FT");
    reveal_strlit("FEAT");
    reveal_strlit("H");
    reveal_strlit("EXPR");
    reveal_strlit("M");
    reveal_strlit("PAPER");
    reveal_strlit("LIT");
    reveal_strlit("IDEA");
    let p = item_type::type_prefix(t);
    assert(p.len() >= 1);
    let first = p[0];
    assert(p.len() >= 2 ==> p[1] == p[1]);
    assert("EX"@[0] == 'E' && "EX"@[1] == 'X');
    assert("VY"@[0] == 'V');
    assert("CA"@[0] == 'C' && "CA"@[1] == 'A');
    assert("CH"@[0] == 'C' && "CH"@[1] == 'H');
    assert("HZ"@[0] == 'H' && "SG"@[0] == 'S' && "FT"@[0] == 'F');
    assert("H"@[0] == 'H' && "M"@[0] == 'M');
    assert("PAPER"@[0] == 'P' && "CHORE"@[0] == 'C');
    assert("LIT"@[0] == 'L' && "EXP"@[0] == 'E' && "VOY"@[0] == 'V' && "SIG"@[0] == 'S');
    assert("IDEA"@[0] == 'I' && "FEAT"@[0] == 'F' && "EXPR"@[0] == 'E');
}

// ---- edges, by the words of the vocabulary ------------------------------------------------------------------

/// Whether a relation is the first that a name stands for: its own name in small letters
/// is the name that is given, trimmed, in small letters, and without dashes.
pub open spec fn is_first_named(vocab: Seq<PredicateView>, i: int, name: Seq<char>) -> bool {
    0 <= i < vocab.len() && text::lower_spec(vocab[i].name) == plain_name(name) && forall|k: int|
        0 <= k < i ==> text::lower_spec((#[trigger] vocab[k]).name) != plain_name(name)
}

proof fn lemma_first_named(vocab: Seq<PredicateView>, name: Seq<char>)
    ensures
        position_of(vocab, name) matches Some(i) ==> is_first_named(vocab, i, name),
        position_of(vocab, name) is None ==> forall|k: int|
            0 <= k < vocab.len() ==> text::lower_spec((#[trigger] vocab[k]).name) != plain_name(
                name,
            ),
    decreases vocab.len(),
{
    if vocab.len() > 0 {
        let init = vocab.drop_last();
        lemma_first_named(init, name);
        if position_of(init, name) is Some {
            let i = position_of(init, name)->0;
            assert forall|k: int| 0 <= k < i implies text::lower_spec((#[trigger] vocab[k]).name)
                != plain_name(name) by {
                assert(init[k] == vocab[k]);
            }
        } else {
            assert forall|k: int| 0 <= k < vocab.len() - 1 implies text::lower_spec(
                (#[trigger] vocab[k]).name,
            ) != plain_name(name) by {
                assert(init[k] == vocab[k]);
            }
        }
    }
}

/// A name stands for the first relation that has it, and for none where none has.
pub proof fn law_names_stand_for_the_first(vocab: Seq<PredicateView>, name: Seq<char>)
    ensures
        forall|i: int| #[trigger]
            is_first_named(vocab, i, name) ==> lookup_spec(vocab, name) == Some(vocab[i]),
        lookup_spec(vocab, name) matches Some(p) ==> exists|i: int| #[trigger]
            is_first_named(vocab, i, name) && vocab[i] == p,
{
    lemma_first_named(vocab, name);
    assert forall|i: int| #[trigger] is_first_named(vocab, i, name) implies lookup_spec(vocab, name)
        == Some(vocab[i]) by {
        assert(text::lower_spec(vocab[i].name) == plain_name(name));
        let j = position_of(vocab, name)->0;
        if j < i {
            assert(text::lower_spec(vocab[j].name) != plain_name(name));
        }
    }
    if lookup_spec(vocab, name) is Some {
        assert(is_first_named(vocab, position_of(vocab, name)->0, name));
    }
}

/// Whether a type is among those that are listed, in whatever case; an empty list has all.
pub open spec fn takes_type(list: Seq<Seq<char>>, t: Seq<char>) -> bool {
    list =~= Seq::empty() || exists|i: int|
        0 <= i < list.len() && text::lower_spec(#[trigger] list[i]) == text::lower_spec(t)
}

/// A known relation may hold if and only if it leads from an item to another one, and the
/// relation takes the type of the source and, where it is known, the type of the target.
pub proof fn law_edges_fit_their_relation(
    vocab: Seq<PredicateView>,
    i: int,
    predicate: Seq<char>,
    source_id: Seq<char>,
    source_type: Seq<char>,
    target_id: Seq<char>,
    target_type: Option<Seq<char>>,
)
    requires
        is_first_named(vocab, i, predicate),
    ensures
        ({
            let verdict = edge_verdict(
                vocab,
                predicate,
                source_id,
                source_type,
                target_id,
                target_type,
            );
            &&& verdict is Ok <==> text::lower_spec(source_id) != text::lower_spec(target_id)
                && takes_type(vocab[i].domain, source_type) && (target_type matches Some(t)
                ==> takes_type(vocab[i].range, t))
            &&& verdict matches Ok(p) ==> p == vocab[i]
        }),
{
    law_names_stand_for_the_first(vocab, predicate);
}

/// A relation that is asked for is what stands before the first colon and what stands
/// behind it, both trimmed, and both have to be there.
pub proof fn law_asked_relations_split_at_the_colon(a: Seq<char>, b: Seq<char>)
    requires
        forall|k: int| 0 <= k < a.len() ==> #[trigger] a[k] != ':',
    ensures
        spec_parts(a.push(':') + b) == (if text::trim_spec(a).len() > 0 && text::trim_spec(b).len()
            > 0 {
            Some((text::trim_spec(a), text::trim_spec(b)))
        } else {
            None
        }),
{
    let s = a.push(':') + b;
    assert forall|k: int| 0 <= k < a.len() implies s[k] != ':' by {
        assert(s[k] == a[k]);
    }
    text::lemma_find(s, ':', a.len() as int);
    assert(s.take(a.len() as int) =~= a);
    assert(s.skip(a.len() as int + 1) =~= b);
}

/// Two relations are kept in the lists of an item: `related` in the list of that name, and
/// `dependsOn` among what the item depends on.
pub proof fn law_two_relations_are_listed(vocab: Seq<PredicateView>, i: int, predicate: Seq<char>)
    requires
        is_first_named(vocab, i, predicate),
    ensures
        flat_column_spec(vocab, predicate) == Some("related"@) <==> vocab[i].name == "related"@,
        flat_column_spec(vocab, predicate) == Some("depends_on"@) <==> vocab[i].name
            == "dependsOn"@,
        vocab[i].name != "related"@ && vocab[i].name != "dependsOn"@ ==> flat_column_spec(
            vocab,
            predicate,
        ) is None,
{
    law_names_stand_for_the_first(vocab, predicate);
    reveal_strlit("related");
    reveal_strlit("depends_on");
    reveal_strlit("dependsOn");
    assert("related"@[0] == 'r' && "depends_on"@[0] == 'd' && "dependsOn"@[0] == 'd');
}

/// An id tells the type of its item by what stands before its first dash, in whatever
/// case: by one of the prefixes of the boards, or else by that of the first class with it.
pub proof fn law_ids_tell_types(list: Seq<ClassView>, head: Seq<char>, rest: Seq<char>, i: int)
    requires
        forall|k: int| 0 <= k < head.len() ==> #[trigger] head[k] != '-',
    ensures
        ({
            let p = text::upper_spec(head);
            let t = id_type_spec(list, head.push('-') + rest);
            &&& p == "EX"@ || p == "EXP"@ ==> t == Some("expedition"@)
            &&& p == "VY"@ || p == "VOY"@ ==> t == Some("voyage"@)
            &&& p == "CA"@ ==> t == Some("campaign"@)
            &&& p == "CH"@ || p == "CHORE"@ ==> t == Some("chore"@)
            &&& p == "HZ"@ ==> t == Some("hazard"@)
            &&& p == "SG"@ || p == "SIG"@ ==> t == Some("signal"@)
            &&& p == "FT"@ || p == "FEAT"@ ==> t == Some("feature"@)
            &&& p == "H"@ ==> t == Some("hypothesis"@)
            &&& p == "EXPR"@ ==> t == Some("experiment"@)
            &&& p == "M"@ ==> t == Some("measure"@)
            &&& p == "PAPER"@ ==> t == Some("paper"@)
            &&& p == "LIT"@ ==> t == Some("literature"@)
            &&& p == "IDEA"@ ==> t == Some("idea"@)
            &&& board_type(p) is None && 0 <= i < list.len() && list[i].id_prefix == Some(p) && (
            forall|k: int| 0 <= k < i ==> (#[trigger] list[k]).id_prefix != Some(p)) ==> t == Some(
                list[i].name,
            )
            &&& board_type(p) is None && (forall|k: int|
                0 <= k < list.len() ==> (#[trigger] list[k]).id_prefix != Some(p)) ==> t is None
        }),
{
    let p = text::upper_spec(head);
    lemma_id_head(head, rest);
    lemma_prefix_words();
    lemma_class_with(list, p, i);
}

proof fn lemma_prefix_words()
    ensures
        board_type("EX"@) == Some("expedition"@),
        board_type("EXP"@) == Some("expedition"@),
        board_type("VY"@) == Some("voyage"@),
        board_type("VOY"@) == Some("voyage"@),
        board_type("CA"@) == Some("campaign"@),
        board_type("CH"@) == Some("chore"@),
        board_type("CHORE"@) == Some("chore"@),
        board_type("HZ"@) == Some("hazard"@),
        board_type("SG"@) == Some("signal"@),
        board_type("SIG"@) == Some("signal"@),
        board_type("FT"@) == Some("feature"@),
        board_type("FEAT"@) == Some("feature"@),
        board_type("H"@) == Some("hypothesis"@),
        board_type("EXPR"@) == Some("experiment"@),
        board_type("M"@) == Some("measure"@),
        board_type("PAPER"@) == Some("paper"@),
        board_type("LIT"@) == Some("literature"@),
        board_type("IDEA"@) == Some("idea"@),
{
    reveal_strlit("EX");
    reveal_strlit("EXP");
    reveal_strlit("VY");
    reveal_strlit("VOY");
    reveal_strlit("CA");
    reveal_strlit("CH");
    reveal_strlit("CHORE");
    reveal_strlit("HZ");
    reveal_strlit("SG");
    reveal_strlit("SIG");
    reveal_strlit("FT");
    reveal_strlit("FEAT");
    reveal_strlit("H");
    reveal_strlit("EXPR");
    reveal_strlit("M");
    reveal_strlit("PAPER");
    reveal_strlit("LIT");
    reveal_strlit("IDEA");
    assert("EX"@[0] == 'E' && "EX"@[1] == 'X' && "EX"@.len() == 2 && "EXP"@[0] == 'E'
        && "EXP"@.len() == 3 && "EXPR"@[0] == 'E' && "EXPR"@.len() == 4);
    assert("VY"@[0] == 'V' && "VY"@.len() == 2 && "VOY"@[0] == 'V' && "VOY"@.len() == 3);
    assert("CA"@[0] == 'C' && "CA"@[1] == 'A' && "CA"@.len() == 2 && "CH"@[0] == 'C' && "CH"@[1]
        == 'H' && "CH"@.len() == 2 && "CHORE"@[0] == 'C' && "CHORE"@.len() == 5);
    assert("HZ"@[0] == 'H' && "HZ"@.len() == 2 && "H"@[0] == 'H' && "H"@.len() == 1);
    assert("SG"@[0] == 'S' && "SG"@.len() == 2 && "SIG"@[0] == 'S' && "SIG"@.len() == 3);
    assert("FT"@[0] == 'F' && "FT"@.len() == 2 && "FEAT"@[0] == 'F' && "FEAT"@.len() == 4);
    assert("M"@[0] == 'M' && "PAPER"@[0] == 'P' && "LIT"@[0] == 'L' && "IDEA"@[0] == 'I');
}

proof fn lemma_class_with(list: Seq<ClassView>, prefix: Seq<char>, i: int)
    ensures
        0 <= i < list.len() && list[i].id_prefix == Some(prefix) && (forall|k: int|
            0 <= k < i ==> (#[trigger] list[k]).id_prefix != Some(prefix)) ==> class_with_prefix(
            list,
            prefix,
        ) == Some(list[i].name),
        (forall|k: int| 0 <= k < list.len() ==> (#[trigger] list[k]).id_prefix != Some(prefix))
            ==> class_with_prefix(list, prefix) is None,
    decreases list.len(),
{
    if list.len() > 0 {
        let init = list.drop_last();
        lemma_class_with(init, prefix, i);
        assert forall|k: int| 0 <= k < init.len() implies #[trigger] init[k] == list[k] by {}
        assert(list.last() == list[list.len() - 1]);
        if 0 <= i < list.len() && list[i].id_prefix == Some(prefix) && (forall|k: int|
            0 <= k < i ==> (#[trigger] list[k]).id_prefix != Some(prefix)) {
            assert forall|k: int| 0 <= k < i implies (#[trigger] init[k]).id_prefix != Some(
                prefix,
            ) by {
                assert(list[k].id_prefix != Some(prefix));
            }
        }
        if forall|k: int| 0 <= k < list.len() ==> (#[trigger] list[k]).id_prefix != Some(prefix) {
            assert forall|k: int| 0 <= k < init.len() implies (#[trigger] init[k]).id_prefix
                != Some(prefix) by {
                assert(list[k].id_prefix != Some(prefix));
            }
            assert(list[list.len() - 1].id_prefix != Some(prefix));
        }
    }
}

proof fn lemma_id_head(head: Seq<char>, rest: Seq<char>)
    requires
        forall|k: int| 0 <= k < head.len() ==> #[trigger] head[k] != '-',
    ensures
        text::split_spec(head.push('-') + rest, '-').len() > 1,
        text::split_spec(head.push('-') + rest, '-')[0] == head,
    decreases rest.len(),
{
    let id = head.push('-') + rest;
    if rest.len() > 0 {
        lemma_id_head(head, rest.drop_last());
        assert(id.drop_last() =~= head.push('-') + rest.drop_last());
    } else {
        assert(id =~= head.push('-'));
        assert(id.drop_last() =~= head);
        lemma_one_piece(head);
    }
}

proof fn lemma_one_piece(head: Seq<char>)
    requires
        forall|k: int| 0 <= k < head.len() ==> #[trigger] head[k] != '-',
    ensures
        text::split_spec(head, '-') == seq![head],
    decreases head.len(),
{
    if head.len() > 0 {
        let init = head.drop_last();
        assert forall|k: int| 0 <= k < init.len() implies #[trigger] init[k] != '-' by {
            assert(head[k] != '-');
        }
        lemma_one_piece(init);
        assert(head[head.len() - 1] != '-');
        assert(init.push(head.last()) =~= head);
        assert(text::split_spec(head, '-') =~= seq![head]);
    } else {
        assert(head =~= Seq::<char>::empty());
    }
}

/// Where the ontology declares no classes there are sixteen: the thirteen types of items
/// and three that group them.
pub proof fn law_classes_fall_back(ttl: Seq<char>, name: Seq<char>)
    requires
        classes_spec(ttl) is Err || classes_spec(ttl)->Ok_0.len() == 0,
    ensures
        (exists|i: int|
            0 <= i < known_classes_spec(ttl).len() && (#[trigger] known_classes_spec(ttl)[i]).name
                == name) <==> name == "expedition"@ || name == "voyage"@ || name == "campaign"@
            || name == "chore"@ || name == "hazard"@ || name == "signal"@ || name == "feature"@
            || name == "paper"@ || name == "hypothesis"@ || name == "experiment"@ || name
            == "measure"@ || name == "idea"@ || name == "literature"@ || name == "item"@ || name
            == "devitem"@ || name == "researchitem"@,
        forall|i: int|
            0 <= i < known_classes_spec(ttl).len() ==> (#[trigger] known_classes_spec(
                ttl,
            )[i]).id_prefix is None,
{
    let list = known_classes_spec(ttl);
    let names = fallback_class_names();
    assert(list == fallback_classes_spec());
    assert forall|i: int| 0 <= i < 16 implies (#[trigger] list[i]).name == names[i] by {}
    assert(list[0].name == names[0] && list[1].name == names[1] && list[2].name == names[2]
        && list[3].name == names[3] && list[4].name == names[4] && list[5].name == names[5]
        && list[6].name == names[6] && list[7].name == names[7] && list[8].name == names[8]
        && list[9].name == names[9] && list[10].name == names[10] && list[11].name == names[11]
        && list[12].name == names[12] && list[13].name == names[13] && list[14].name == names[14]
        && list[15].name == names[15]);
}

/// A type may be the source of a relation if and only if the relation is known and takes
/// the name of the type.
pub proof fn law_sources_fit_by_their_type(
    vocab: Seq<PredicateView>,
    i: int,
    predicate: Seq<char>,
    t: ItemType,
)
    requires
        is_first_named(vocab, i, predicate),
    ensures
        domain_allows_spec(vocab, predicate, t) <==> takes_type(
            vocab[i].domain,
            item_type::name_of_type(t),
        ),
{
    law_names_stand_for_the_first(vocab, predicate);
}

proof fn lemma_filter_add(a: Seq<char>, b: Seq<char>, f: spec_fn(char) -> bool)
    ensures
        (a + b).filter(f) == a.filter(f) + b.filter(f),
    decreases b.len(),
{
    reveal(Seq::filter);
    if b.len() > 0 {
        lemma_filter_add(a, b.drop_last(), f);
        assert((a + b).drop_last() =~= a + b.drop_last());
        assert((a + b).last() == b.last());
        if f(b.last()) {
            assert((a.filter(f) + b.drop_last().filter(f)).push(b.last()) =~= a.filter(f)
                + b.drop_last().filter(f).push(b.last()));
        }
    } else {
        assert(a + b =~= a);
        assert(a.filter(f) + b.filter(f) =~= a.filter(f));
    }
}

/// A dash or an underscore within a name does not matter, nor does the case of a letter or
/// a space around the name.
pub proof fn law_names_are_taken_loosely(a: Seq<char>, c: char, b: Seq<char>)
    requires
        c == '_' || c == '-',
        a.len() > 0,
        b.len() > 0,
        !text::is_space(a[0]),
        !text::is_space(b.last()),
    ensures
        plain_name(a.push(c) + b) == plain_name(a + b),
        plain_name(text::lower_spec(a + b)) == plain_name(a + b),
        plain_name(seq![' '] + (a + b) + seq![' ']) == plain_name(a + b),
{
    let none = Seq::<char>::empty();
    let f = |x: char| x != '_' && x != '-';
    let whole = a + b;
    let dashed = a.push(c) + b;
    text::law_trimming_takes_off_spaces(none, whole, none);
    text::law_trimming_takes_off_spaces(none, dashed, none);
    text::law_trimming_takes_off_spaces(seq![' '], whole, seq![' ']);
    assert(none + whole + none =~= whole);
    assert(none + dashed + none =~= dashed);
    let la = text::lower_spec(a);
    let lb = text::lower_spec(b);
    assert(text::lower_spec(whole) =~= la + lb);
    assert(text::lower_spec(dashed) =~= la.push(c) + lb);
    lemma_filter_add(la, lb, f);
    lemma_filter_add(la.push(c), lb, f);
    assert(la.push(c).filter(f) == la.filter(f)) by {
        reveal(Seq::filter);
        assert(la.push(c).drop_last() =~= la);
        assert(!f(c));
    }
    let small = text::lower_spec(whole);
    lemma_lower_keeps_spaces(whole);
    text::law_trimming_takes_off_spaces(none, small, none);
    assert(none + small + none =~= small);
    assert(text::lower_spec(small) =~= small);
}

proof fn lemma_lower_keeps_spaces(s: Seq<char>)
    requires
        s.len() > 0,
        !text::is_space(s[0]),
        !text::is_space(s.last()),
    ensures
        !text::is_space(text::lower_spec(s)[0]),
        !text::is_space(text::lower_spec(s).last()),
{
    assert(text::lower_spec(s)[0] == text::lower_char(s[0]));
    assert(text::lower_spec(s).last() == text::lower_char(s.last()));
}

/// A clause of a relation sets the field that its first word is for, and no other.
pub proof fn law_clauses_set_their_field(
    p: PropertyView,
    clause: Seq<char>,
    local: Seq<char>,
    word: Seq<char>,
    rest: Seq<char>,
)
    requires
        text::trim_spec(clause).len() > 0,
        turtle::cut_clause(text::trim_spec(clause)) == Some((word, rest)),
    ensures
        ({
            let after = with_clause(p, clause, local);
            &&& word == "rdfs:domain"@ ==> (turtle::class_list_spec(rest) matches Ok(list) ==> after
                == Ok::<PropertyView, Seq<char>>(PropertyView { domain: list, ..p }))
            &&& word == "rdfs:range"@ ==> (turtle::class_list_spec(rest) matches Ok(list) ==> after
                == Ok::<PropertyView, Seq<char>>(PropertyView { range: list, ..p }))
            &&& word == "owl:inverseOf"@ ==> (turtle::local_spec(rest) matches Ok(name) ==> after
                == Ok::<PropertyView, Seq<char>>(PropertyView { inverse: Some(name), ..p }))
            &&& word == "rdfs:label"@ ==> (turtle::quoted_spec(rest) matches Ok(s) ==> after == Ok::<
                PropertyView,
                Seq<char>,
            >(PropertyView { label: Some(s), ..p }))
            &&& word == "rdfs:comment"@ ==> (turtle::quoted_spec(rest) matches Ok(s) ==> after
                == Ok::<PropertyView, Seq<char>>(PropertyView { doc: Some(s), ..p }))
            &&& word != "rdfs:domain"@ && word != "rdfs:range"@ && word != "owl:inverseOf"@ && word
                != "rdfs:label"@ && word != "rdfs:comment"@ ==> after == Ok::<
                PropertyView,
                Seq<char>,
            >(p)
        }),
{
    reveal_strlit("rdfs:domain");
    reveal_strlit("rdfs:range");
    reveal_strlit("owl:inverseOf");
    reveal_strlit("rdfs:label");
    reveal_strlit("rdfs:comment");
    assert("rdfs:domain"@[5] == 'd' && "rdfs:range"@[5] == 'r' && "owl:inverseOf"@[0] == 'o');
    assert("rdfs:label"@[5] == 'l' && "rdfs:comment"@[5] == 'c' && "rdfs:domain"@[0] == 'r');
    assert("rdfs:range"@[0] == 'r' && "rdfs:label"@[0] == 'r' && "rdfs:comment"@[0] == 'r');
}

/// The relations of a vocabulary are those that its statements declare.
pub proof fn law_declared_relations_are_all_there(
    statements: Seq<Seq<char>>,
    n: nat,
    p: PredicateView,
)
    requires
        n <= statements.len(),
        declared_properties(statements, n) is Ok,
    ensures
        declared_properties(statements, n)->Ok_0.contains(p) <==> exists|i: int|
            0 <= i < n && property_of(#[trigger] statements[i]) == Ok::<
                Option<PredicateView>,
                Seq<char>,
            >(Some(p)),
    decreases n,
{
    if n > 0 {
        let m = (n - 1) as nat;
        law_declared_relations_are_all_there(statements, m, p);
        let before = declared_properties(statements, m)->Ok_0;
        match property_of(statements[n - 1]) {
            Ok(Some(x)) => {
                vstd::seq_lib::lemma_seq_contains_after_push(before, x, p);
            },
            _ => {},
        }
        if exists|i: int|
            0 <= i < m && property_of(#[trigger] statements[i]) == Ok::<
                Option<PredicateView>,
                Seq<char>,
            >(Some(p)) {
            let i = choose|i: int|
                0 <= i < m && property_of(#[trigger] statements[i]) == Ok::<
                    Option<PredicateView>,
                    Seq<char>,
                >(Some(p));
            assert(0 <= i < n && property_of(statements[i]) == Ok::<
                Option<PredicateView>,
                Seq<char>,
            >(Some(p)));
        }
        assert(property_of(statements[n - 1]) == Ok::<Option<PredicateView>, Seq<char>>(Some(p))
            ==> 0 <= n - 1 < n);
    }
}

} // verus!
