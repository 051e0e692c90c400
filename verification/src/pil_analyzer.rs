//! The state of the analyzer.
use vstd::prelude::*;

use crate::analyzed;
use crate::analyzed::{
    Definition, DefinitionView, Identity, IdentityKind, IdentityView, PolynomialType,
    PublicDeclaration, PublicDeclarationView, StatementIdentifier, StatementIdentifierView,
    SymbolKind,
};
use crate::laws::states;
use crate::lines;
use crate::name_map::NameMap;
use crate::number::{DegreeType, FieldElement};
use crate::pil_analyzer::expressions::Scope;

pub mod arrays;
pub mod evaluation;
pub mod expressions;
pub mod files;
pub mod handlers;
pub mod resolution;
pub mod statements;

verus! {

/// For each kind of symbols the id that comes next.
#[derive(Debug, Clone, Copy, PartialEq, Eq, Structural)]
pub struct SymbolCounters {
    pub committed: u64,
    pub constant: u64,
    pub intermediate: u64,
    pub other: u64,
}

impl SymbolCounters {
    /// The id that the next symbol of `kind` gets.
    pub open spec fn next_id(self, kind: SymbolKind) -> u64 {
        match kind {
            SymbolKind::Poly(PolynomialType::Committed) => self.committed,
            SymbolKind::Poly(PolynomialType::Constant) => self.constant,
            SymbolKind::Poly(PolynomialType::Intermediate) => self.intermediate,
            SymbolKind::Other() => self.other,
        }
    }

    /// The counters with `next` as the id that comes next for `kind`.
    pub open spec fn with_next_id(self, kind: SymbolKind, next: u64) -> SymbolCounters {
        match kind {
            SymbolKind::Poly(PolynomialType::Committed) => SymbolCounters {
                committed: next,
                ..self
            },
            SymbolKind::Poly(PolynomialType::Constant) => SymbolCounters { constant: next, ..self },
            SymbolKind::Poly(PolynomialType::Intermediate) => SymbolCounters {
                intermediate: next,
                ..self
            },
            SymbolKind::Other() => SymbolCounters { other: next, ..self },
        }
    }

    pub fn get(&self, kind: SymbolKind) -> (id: u64)
        ensures
            id == self.next_id(kind),
    {
        match kind {
            SymbolKind::Poly(PolynomialType::Committed) => self.committed,
            SymbolKind::Poly(PolynomialType::Constant) => self.constant,
            SymbolKind::Poly(PolynomialType::Intermediate) => self.intermediate,
            SymbolKind::Other() => self.other,
        }
    }

    pub fn set(&mut self, kind: SymbolKind, next: u64)
        ensures
            *final(self) == old(self).with_next_id(kind, next),
    {
        match kind {
            SymbolKind::Poly(PolynomialType::Committed) => {
                self.committed = next;
            },
            SymbolKind::Poly(PolynomialType::Constant) => {
                self.constant = next;
            },
            SymbolKind::Poly(PolynomialType::Intermediate) => {
                self.intermediate = next;
            },
            SymbolKind::Other() => {
                self.other = next;
            },
        }
    }
}

/// For each kind of identities the id that comes next.
#[derive(Debug, Clone, Copy, PartialEq, Eq, Structural)]
pub struct IdentityCounters {
    pub polynomial: u64,
    pub plookup: u64,
    pub permutation: u64,
    pub connect: u64,
}

impl IdentityCounters {
    /// The id that the next identity of `kind` gets.
    pub open spec fn next_id(self, kind: IdentityKind) -> u64 {
        match kind {
            IdentityKind::Polynomial => self.polynomial,
            IdentityKind::Plookup => self.plookup,
            IdentityKind::Permutation => self.permutation,
            IdentityKind::Connect => self.connect,
        }
    }

    /// The counters with `next` as the id that comes next for `kind`.
    pub open spec fn with_next_id(self, kind: IdentityKind, next: u64) -> IdentityCounters {
        match kind {
            IdentityKind::Polynomial => IdentityCounters { polynomial: next, ..self },
            IdentityKind::Plookup => IdentityCounters { plookup: next, ..self },
            IdentityKind::Permutation => IdentityCounters { permutation: next, ..self },
            IdentityKind::Connect => IdentityCounters { connect: next, ..self },
        }
    }

    /// The id that comes next for `kind`.
    pub fn get(&self, kind: IdentityKind) -> (id: u64)
        ensures
            id == self.next_id(kind),
    {
        match kind {
            IdentityKind::Polynomial => self.polynomial,
            IdentityKind::Plookup => self.plookup,
            IdentityKind::Permutation => self.permutation,
            IdentityKind::Connect => self.connect,
        }
    }

    /// Gives out the id that comes next for `kind`.
    pub fn dispense_id(&mut self, kind: IdentityKind) -> (id: u64)
        requires
            old(self).next_id(kind) < u64::MAX,
        ensures
            id == old(self).next_id(kind),
            *final(self) == old(self).with_next_id(kind, (id + 1) as u64),
    {
        let id = self.get(kind);
        match kind {
            IdentityKind::Polynomial => {
                self.polynomial = id + 1;
            },
            IdentityKind::Plookup => {
                self.plookup = id + 1;
            },
            IdentityKind::Permutation => {
                self.permutation = id + 1;
            },
            IdentityKind::Connect => {
                self.connect = id + 1;
            },
        }
        id
    }
}

/// The analyzer: what is known of the statements handled so far.
#[verifier::reject_recursive_types(T)]
pub struct PILAnalyzer<T> {
    pub(crate) namespace: String,
    pub(crate) polynomial_degree: DegreeType,
    /// Constants are not namespaced.
    pub(crate) constants: NameMap<T>,
    pub(crate) definitions: NameMap<Definition<T>>,
    pub(crate) public_declarations: NameMap<PublicDeclaration>,
    pub(crate) identities: Vec<Identity<T>>,
    /// The order in which definitions and identities appear in the source.
    pub(crate) source_order: Vec<StatementIdentifier>,
    pub(crate) included_files: NameMap<()>,
    pub(crate) line_starts: Vec<usize>,
    pub(crate) current_file: Option<String>,
    pub(crate) symbol_counters: SymbolCounters,
    pub(crate) identity_counter: IdentityCounters,
}

/// The mathematical counterpart of [`PILAnalyzer`].
#[verifier::ext_equal]
pub struct AnalyzerView<T> {
    pub namespace: Seq<char>,
    pub polynomial_degree: DegreeType,
    pub constants: Map<Seq<char>, T>,
    pub definitions: Map<Seq<char>, DefinitionView<T>>,
    pub public_declarations: Map<Seq<char>, PublicDeclarationView>,
    pub identities: Seq<IdentityView<T>>,
    pub source_order: Seq<StatementIdentifierView>,
    pub included_files: Set<Seq<char>>,
    pub line_starts: Seq<usize>,
    pub current_file: Option<Seq<char>>,
    pub symbol_counters: SymbolCounters,
    pub identity_counter: IdentityCounters,
}

impl<T> AnalyzerView<T> {
    /// What the meaning of a name depends on, outside of functions.
    pub open spec fn scope(self) -> Scope<T> {
        Scope { constants: self.constants, namespace: self.namespace, locals: Map::empty() }
    }
}

pub open spec fn file_view(file: Option<String>) -> Option<Seq<char>> {
    match file {
        None => None,
        Some(name) => Some(name@),
    }
}

impl<T> View for PILAnalyzer<T> {
    type V = AnalyzerView<T>;

    closed spec fn view(&self) -> AnalyzerView<T> {
        AnalyzerView {
            namespace: self.namespace@,
            polynomial_degree: self.polynomial_degree,
            constants: self.constants@,
            definitions: analyzed::definitions_view(self.definitions@),
            public_declarations: analyzed::declarations_view(self.public_declarations@),
            identities: analyzed::identities_view(self.identities@),
            source_order: analyzed::order_view(self.source_order@),
            included_files: self.included_files@.dom(),
            line_starts: self.line_starts@,
            current_file: file_view(self.current_file),
            symbol_counters: self.symbol_counters,
            identity_counter: self.identity_counter,
        }
    }
}

/// How many of the identities are of `kind`.
pub open spec fn count_kind<T>(identities: Seq<IdentityView<T>>, kind: IdentityKind) -> nat
    decreases identities.len(),
{
    if identities.len() == 0 {
        0
    } else {
        count_kind(identities.drop_last(), kind) + if identities.last().kind == kind {
            1nat
        } else {
            0nat
        }
    }
}

/// There are at most as many identities of a kind as there are identities.
pub proof fn lemma_count_kind_bound<T>(identities: Seq<IdentityView<T>>, kind: IdentityKind)
    ensures
        count_kind(identities, kind) <= identities.len(),
    decreases identities.len(),
{
    if identities.len() > 0 {
        lemma_count_kind_bound(identities.drop_last(), kind);
    }
}

/// The state of an analyzer that has not seen a statement.
pub open spec fn initial<T>() -> AnalyzerView<T> {
    AnalyzerView {
        namespace: "Global"@,
        polynomial_degree: 0,
        constants: Map::empty(),
        definitions: Map::empty(),
        public_declarations: Map::empty(),
        identities: Seq::empty(),
        source_order: Seq::empty(),
        included_files: Set::empty(),
        line_starts: Seq::empty(),
        current_file: None,
        symbol_counters: SymbolCounters { committed: 0, constant: 0, intermediate: 0, other: 0 },
        identity_counter: IdentityCounters {
            polynomial: 0,
            plookup: 0,
            permutation: 0,
            connect: 0,
        },
    }
}

impl<T> PILAnalyzer<T> {
    /// The maps are intact, line starts rise, and the next id of each kind of
    /// identities is the number of identities of that kind.
    pub closed spec fn wf(&self) -> bool {
        &&& self.constants.wf()
        &&& self.definitions.wf()
        &&& self.public_declarations.wf()
        &&& self.included_files.wf()
        &&& lines::rising(self.line_starts@)
        &&& forall|kind: IdentityKind|
            self.identity_counter.next_id(kind) == #[trigger] count_kind(self@.identities, kind)
    }

    /// The statements of an analyzer can be counted.
    pub proof fn lemma_statements_counted(&self)
        ensures
            self@.source_order.len() <= usize::MAX,
    {
        assert(self.source_order.len() == self@.source_order.len());
    }
}

impl<T: FieldElement> PILAnalyzer<T> {
    pub fn new() -> (analyzer: PILAnalyzer<T>)
        ensures
            analyzer.wf(),
            analyzer@ == initial::<T>(),
            states::consistent(analyzer@),
    {
        proof {
            states::lemma_initial_consistent::<T>();
        }
        let analyzer = PILAnalyzer {
            namespace: "Global".to_owned(),
            polynomial_degree: 0,
            constants: NameMap::new(),
            definitions: NameMap::new(),
            public_declarations: NameMap::new(),
            identities: Vec::new(),
            source_order: Vec::new(),
            included_files: NameMap::new(),
            line_starts: Vec::new(),
            current_file: None,
            symbol_counters: SymbolCounters {
                committed: 0,
                constant: 0,
                intermediate: 0,
                other: 0,
            },
            identity_counter: IdentityCounters {
                polynomial: 0,
                plookup: 0,
                permutation: 0,
                connect: 0,
            },
        };
        assert(analyzer@ =~= initial::<T>());
        analyzer
    }
}

} // verus!
