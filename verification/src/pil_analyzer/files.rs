//! The handling of whole files.
use vstd::prelude::*;

use crate::analyzed::{Analyzed, PolynomialType, SymbolKind};
use crate::error::{AnalysisError, AnalysisErrorView, Outcome};
use crate::laws::states;
use crate::lines;
use crate::number::FieldElement;
use crate::parsed::{PilFile, PilStatement};
use crate::pil_analyzer;
use crate::pil_analyzer::handlers;
use crate::pil_analyzer::handlers::DefinitionPart;
use crate::pil_analyzer::resolution;
use crate::pil_analyzer::statements;
use crate::pil_analyzer::{AnalyzerView, PILAnalyzer};

verus! {

/// An error in a front part is the error of the whole.
proof fn lemma_handle_all_error<T: FieldElement>(
    s: AnalyzerView<T>,
    statements: Seq<PilStatement<T>>,
    end: int,
)
    requires
        0 <= end <= statements.len(),
        statements::handle_all(s, statements.take(end)).1 is Err,
    ensures
        statements::handle_all(s, statements) == statements::handle_all(s, statements.take(end)),
    decreases statements.len(),
{
    if end == statements.len() {
        assert(statements.take(end) =~= statements);
    } else {
        assert(statements.drop_last().take(end) =~= statements.take(end));
        lemma_handle_all_error(s, statements.drop_last(), end);
    }
}

impl<T: FieldElement> PILAnalyzer<T> {
    /// Handles one statement.
    pub fn handle_statement(&mut self, statement: &PilStatement<T>) -> (result: Result<
        (),
        AnalysisError,
    >)
        requires
            old(self).wf(),
        ensures
            final(self).wf(),
            handlers::moved(final(self)@, result, statements::handle(old(self)@, *statement)),
            states::orderly(old(self)@) ==> states::stays_consistent(old(self)@, final(self)@),
        decreases *statement, 0nat,
    {
        let result = match statement {
            PilStatement::Include(_, file) => self.handle_include(file),
            PilStatement::Namespace(_, name, degree) => self.handle_namespace(name, degree),
            PilStatement::PolynomialDefinition(start, name, e) => self.define_at_offset(
                *start,
                name,
                None,
                SymbolKind::Poly(PolynomialType::Intermediate),
                Some(DefinitionPart::Expression(e)),
            ),
            PilStatement::PublicDeclaration(start, name, polynomial, index) => {
                match self.to_source_ref(*start) {
                    Err(error) => Err(error),
                    Ok(source) => self.handle_public_declaration(source, name, polynomial, index),
                }
            },
            PilStatement::PolynomialConstantDeclaration(start, polynomials) => {
                match self.to_source_ref(*start) {
                    Err(error) => Err(error),
                    Ok(source) => self.handle_polynomial_declarations(
                        source,
                        polynomials,
                        PolynomialType::Constant,
                    ),
                }
            },
            PilStatement::PolynomialConstantDefinition(start, name, value) => self.define_at_offset(
                *start,
                name,
                None,
                SymbolKind::Poly(PolynomialType::Constant),
                Some(DefinitionPart::of(value)),
            ),
            PilStatement::PolynomialCommitDeclaration(start, polynomials, None) => {
                match self.to_source_ref(*start) {
                    Err(error) => Err(error),
                    Ok(source) => self.handle_polynomial_declarations(
                        source,
                        polynomials,
                        PolynomialType::Committed,
                    ),
                }
            },
            PilStatement::PolynomialCommitDeclaration(start, polynomials, Some(value)) => {
                if polynomials.len() != 1 {
                    Err(AnalysisError::NotOnePolynomial)
                } else {
                    let polynomial = &polynomials[0];
                    let array_size = match &polynomial.array_size {
                        None => None,
                        Some(e) => Some(e),
                    };
                    self.define_at_offset(
                        *start,
                        &polynomial.name,
                        array_size,
                        SymbolKind::Poly(PolynomialType::Committed),
                        Some(DefinitionPart::of(value)),
                    )
                }
            },
            PilStatement::ConstantDefinition(_, name, e) => match self.evaluate_to_number(e) {
                Err(error) => Err(error),
                Ok(value) => self.handle_constant_definition(name, value),
            },
            PilStatement::LetStatement(start, name, value) => self.handle_generic_definition(
                *start,
                name,
                value,
            ),
            PilStatement::MacroDefinition(_, _, _, _, _) => Err(AnalysisError::MacroNotExpanded),
            _ => self.handle_identity_statement(statement),
        };
        proof {
            if states::orderly(old(self)@) {
                self.lemma_statements_counted();
                states::lemma_statement_consistent(old(self)@, *statement);
            }
        }
        result
    }

    /// Handles the file that an include names.
    fn handle_include(&mut self, file: &PilFile<T>) -> (result: Result<(), AnalysisError>)
        requires
            old(self).wf(),
        ensures
            final(self).wf(),
            handlers::moved(final(self)@, result, statements::handle_file(old(self)@, *file)),
        decreases *file, 1nat,
    {
        self.process_file(file)
    }

    /// Handles a file, unless it was handled before.
    pub fn process_file(&mut self, file: &PilFile<T>) -> (result: Result<(), AnalysisError>)
        requires
            old(self).wf(),
        ensures
            final(self).wf(),
            handlers::moved(final(self)@, result, statements::handle_file(old(self)@, *file)),
            states::orderly(old(self)@) ==> states::stays_consistent(old(self)@, final(self)@),
        decreases *file, 0nat,
    {
        if self.included_files.contains_key(file.path.as_str()) {
            return Ok(());
        }
        self.included_files.insert(file.path.clone(), ());
        assert(self@ =~= AnalyzerView {
            included_files: old(self)@.included_files.insert(file.path@),
            ..old(self)@
        });
        let file_name = match &file.file_name {
            None => None,
            Some(name) => Some(name.clone()),
        };
        let result = self.process_file_contents(
            file_name,
            file.contents.as_str(),
            &file.statements,
        );
        proof {
            if states::orderly(old(self)@) {
                self.lemma_statements_counted();
                states::lemma_file_consistent(old(self)@, *file);
            }
        }
        result
    }

    /// Handles the statements of a text. Afterwards the file around it is the
    /// current one again.
    pub fn process_file_contents(
        &mut self,
        file_name: Option<String>,
        contents: &str,
        statements: &Vec<PilStatement<T>>,
    ) -> (result: Result<(), AnalysisError>)
        requires
            old(self).wf(),
        ensures
            final(self).wf(),
            handlers::moved(
                final(self)@,
                result,
                statements::handle_contents(
                    old(self)@,
                    pil_analyzer::file_view(file_name),
                    contents@,
                    statements@,
                ),
            ),
            states::orderly(old(self)@) ==> states::stays_consistent(old(self)@, final(self)@),
        decreases statements, 0nat,
    {
        let mut around_file = file_name;
        let mut around_starts = lines::compute_line_starts(contents);
        std::mem::swap(&mut self.current_file, &mut around_file);
        std::mem::swap(&mut self.line_starts, &mut around_starts);
        let ghost entered = self@;
        assert(entered =~= AnalyzerView {
            current_file: pil_analyzer::file_view(file_name),
            line_starts: lines::line_starts(vstd::utf8::encode_utf8(contents@)),
            ..old(self)@
        });
        let mut i: usize = 0;
        assert(statements@.take(0).len() == 0);
        while i < statements.len()
            invariant
                self.wf(),
                i <= statements@.len(),
                statements::handle_all(entered, statements@.take(i as int)) == (
                    self@,
                    Ok::<(), AnalysisErrorView>(()),
                ),
                entered == (AnalyzerView {
                    current_file: pil_analyzer::file_view(file_name),
                    line_starts: lines::line_starts(vstd::utf8::encode_utf8(contents@)),
                    ..old(self)@
                }),
            decreases statements@.len() - i,
        {
            assert(statements@.take(i + 1).drop_last() =~= statements@.take(i as int));
            match self.handle_statement(&statements[i]) {
                Err(error) => {
                    proof {
                        lemma_handle_all_error(entered, statements@, i + 1);
                        if states::orderly(old(self)@) {
                            self.lemma_statements_counted();
                            states::lemma_contents_consistent(
                                old(self)@,
                                pil_analyzer::file_view(file_name),
                                contents@,
                                statements@,
                            );
                        }
                    }
                    return Err(error);
                },
                Ok(()) => {},
            }
            i = i + 1;
        }
        assert(statements@.take(i as int) =~= statements@);
        self.current_file = around_file;
        self.line_starts = around_starts;
        assert(self@ =~= statements::handle_contents(
            old(self)@,
            pil_analyzer::file_view(file_name),
            contents@,
            statements@,
        ).0);
        proof {
            if states::orderly(old(self)@) {
                self.lemma_statements_counted();
                states::lemma_contents_consistent(
                    old(self)@,
                    pil_analyzer::file_view(file_name),
                    contents@,
                    statements@,
                );
            }
        }
        Ok(())
    }
}

/// `result` is the program of the state `last.0`, or the error in its way.
pub open spec fn finished<T>(
    last: (AnalyzerView<T>, Outcome<()>),
    result: Result<Analyzed<T>, AnalysisError>,
) -> bool {
    match result {
        Ok(analyzed) => {
            &&& last.1 is Ok
            &&& resolution::all_resolved(last.0)
            &&& analyzed.wf()
            &&& analyzed@ == resolution::resolve_program(last.0)
        },
        Err(error) => match last.1 {
            Ok(_) => resolution::is_error_of(last.0, error@),
            Err(e) => e == error@,
        },
    }
}

/// Analyzes a file.
pub fn process_pil_file<T: FieldElement>(file: &PilFile<T>) -> (result: Result<
    Analyzed<T>,
    AnalysisError,
>)
    ensures
        finished(statements::handle_file(pil_analyzer::initial::<T>(), *file), result),
        result is Ok ==> states::consistent(
            statements::handle_file(pil_analyzer::initial::<T>(), *file).0,
        ),
{
    let mut analyzer = PILAnalyzer::new();
    match analyzer.process_file(file) {
        Err(error) => Err(error),
        Ok(()) => Analyzed::from(analyzer),
    }
}

/// Analyzes a text that is in no file. Places in it refer to a file `input`.
pub fn process_pil_file_contents<T: FieldElement>(
    contents: &str,
    statements: &Vec<PilStatement<T>>,
) -> (result: Result<Analyzed<T>, AnalysisError>)
    ensures
        finished(
            statements::handle_contents(
                pil_analyzer::initial::<T>(),
                Some("input"@),
                contents@,
                statements@,
            ),
            result,
        ),
        result is Ok ==> states::consistent(
            statements::handle_contents(
                pil_analyzer::initial::<T>(),
                Some("input"@),
                contents@,
                statements@,
            ).0,
        ),
{
    let mut analyzer = PILAnalyzer::new();
    match analyzer.process_file_contents(Some("input".to_owned()), contents, statements) {
        Err(error) => Err(error),
        Ok(()) => Analyzed::from(analyzer),
    }
}

} // verus!
