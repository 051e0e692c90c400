//! Programs from their text to their analyzed form. A small reader and a small
//! printer stand at the two ends.
use pil_analyzer::analyzed;
use pil_analyzer::analyzed::{
    Analyzed, FunctionValueDefinition, Identity, IdentityKind, PolyID, PolynomialReference,
    PolynomialType, Reference, RepeatedArray, StatementIdentifier, SymbolKind,
};
use pil_analyzer::error::AnalysisError;
use pil_analyzer::number::{FieldElement, GoldilocksField};
use pil_analyzer::parsed::{
    ArrayExpression, ArrayLiteral, BinaryOperator, Expression, FunctionCall, FunctionDefinition,
    LambdaExpression, MatchArm, MatchPattern, NamespacedPolynomialReference, PilFile, PilStatement,
    PolynomialName, SelectedExpressions, ShiftedPolynomialReference, UnaryOperator,
};
use pil_analyzer::pil_analyzer::PILAnalyzer;
use pil_analyzer::{
    inline_intermediate_polynomials, is_inlinable, process_pil_file, process_pil_file_contents,
};

type F = GoldilocksField;

#[derive(Debug, Clone, PartialEq)]
enum Token {
    Name(String),
    Number(u64),
    Text(String),
    Sign(String),
}

fn tokens(source: &str) -> Vec<(usize, Token)> {
    let signs = [
        "**", "<=", ">=", "==", "!=", "&&", "||", "=>", "<<", ">>", "+", "-", "*", "/", "%", "<",
        ">", "!", "=", "(", ")", "{", "}", "[", "]", ",", ";", ".", "'", "|", "&", "^",
    ];
    let bytes = source.as_bytes();
    let mut found = Vec::new();
    let mut i = 0;
    while i < bytes.len() {
        let c = bytes[i] as char;
        let start = i;
        if c.is_whitespace() {
            i += 1;
        } else if c.is_ascii_digit() {
            while i < bytes.len() && (bytes[i] as char).is_ascii_digit() {
                i += 1;
            }
            found.push((start, Token::Number(source[start..i].parse().unwrap())));
        } else if c == '"' {
            i += 1;
            while bytes[i] as char != '"' {
                i += 1;
            }
            i += 1;
            found.push((start, Token::Text(source[start + 1..i - 1].to_string())));
        } else if c.is_ascii_alphabetic()
            || c == '_'
            || ((c == ':' || c == '%') && (bytes[i + 1] as char).is_ascii_alphabetic())
        {
            i += 1;
            while i < bytes.len() && ((bytes[i] as char).is_ascii_alphanumeric() || bytes[i] == b'_') {
                i += 1;
            }
            found.push((start, Token::Name(source[start..i].to_string())));
        } else {
            let sign = signs.iter().find(|s| source[i..].starts_with(**s)).unwrap();
            i += sign.len();
            found.push((start, Token::Sign(sign.to_string())));
        }
    }
    found
}

struct Reader {
    tokens: Vec<(usize, Token)>,
    position: usize,
}

impl Reader {
    fn peek(&self) -> Option<&Token> {
        self.tokens.get(self.position).map(|t| &t.1)
    }

    fn is_sign(&self, sign: &str) -> bool {
        self.peek() == Some(&Token::Sign(sign.to_string()))
    }

    fn is_word(&self, word: &str) -> bool {
        self.peek() == Some(&Token::Name(word.to_string()))
    }

    fn accept(&mut self, sign: &str) -> bool {
        let found = self.is_sign(sign);
        if found {
            self.position += 1;
        }
        found
    }

    fn expect(&mut self, sign: &str) {
        assert!(self.accept(sign), "expected {} at {:?}", sign, self.tokens.get(self.position));
    }

    fn accept_word(&mut self, word: &str) -> bool {
        let found = self.is_word(word);
        if found {
            self.position += 1;
        }
        found
    }

    fn name(&mut self) -> String {
        match self.peek().cloned() {
            Some(Token::Name(name)) => {
                self.position += 1;
                name
            }
            other => panic!("expected a name, found {:?}", other),
        }
    }

    fn expressions(&mut self, end: &str) -> Vec<Expression<F>> {
        let mut items = Vec::new();
        while !self.is_sign(end) {
            items.push(self.expression());
            if !self.accept(",") {
                break;
            }
        }
        self.expect(end);
        items
    }

    fn params(&mut self, end: &str) -> Vec<String> {
        let mut names = Vec::new();
        while !self.is_sign(end) {
            names.push(self.name());
            if !self.accept(",") {
                break;
            }
        }
        self.expect(end);
        names
    }

    fn expression(&mut self) -> Expression<F> {
        if self.accept("|") {
            let params = self.params("|");
            let body = Box::new(self.expression());
            return Expression::LambdaExpression(LambdaExpression { params, body });
        }
        if self.accept_word("match") {
            let scrutinee = Box::new(self.expression());
            self.expect("{");
            let mut arms = Vec::new();
            while !self.is_sign("}") {
                let pattern = if self.accept_word("_") {
                    MatchPattern::CatchAll
                } else {
                    MatchPattern::Pattern(self.expression())
                };
                self.expect("=>");
                let value = self.expression();
                arms.push(MatchArm { pattern, value });
                self.accept(",");
            }
            self.expect("}");
            return Expression::MatchExpression(scrutinee, arms);
        }
        self.binary(0)
    }

    fn binary(&mut self, level: usize) -> Expression<F> {
        let levels: Vec<Vec<(&str, BinaryOperator)>> = vec![
            vec![("||", BinaryOperator::LogicalOr)],
            vec![("&&", BinaryOperator::LogicalAnd)],
            vec![
                ("<", BinaryOperator::Less),
                ("<=", BinaryOperator::LessEqual),
                ("==", BinaryOperator::Equal),
                ("!=", BinaryOperator::NotEqual),
                (">=", BinaryOperator::GreaterEqual),
                (">", BinaryOperator::Greater),
            ],
            vec![("&", BinaryOperator::BinaryAnd), ("^", BinaryOperator::BinaryXor)],
            vec![("<<", BinaryOperator::ShiftLeft), (">>", BinaryOperator::ShiftRight)],
            vec![("+", BinaryOperator::Add), ("-", BinaryOperator::Sub)],
            vec![
                ("*", BinaryOperator::Mul),
                ("/", BinaryOperator::Div),
                ("%", BinaryOperator::Mod),
            ],
            vec![("**", BinaryOperator::Pow)],
        ];
        if level == levels.len() {
            return self.unary();
        }
        let mut left = self.binary(level + 1);
        loop {
            let op = levels[level].iter().find(|(sign, _)| self.is_sign(sign)).map(|(_, op)| *op);
            match op {
                None => return left,
                Some(op) => {
                    self.position += 1;
                    let right = self.binary(level + 1);
                    left = Expression::BinaryOperation(Box::new(left), op, Box::new(right));
                }
            }
        }
    }

    fn unary(&mut self) -> Expression<F> {
        let ops = [
            ("+", UnaryOperator::Plus),
            ("-", UnaryOperator::Minus),
            ("!", UnaryOperator::LogicalNot),
        ];
        for (sign, op) in ops {
            if self.accept(sign) {
                return Expression::UnaryOperation(op, Box::new(self.unary()));
            }
        }
        self.term()
    }

    fn term(&mut self) -> Expression<F> {
        if self.accept("(") {
            let first = self.expression();
            if self.accept(")") {
                return first;
            }
            self.expect(",");
            let mut items = vec![first];
            items.extend(self.expressions(")"));
            return Expression::Tuple(items);
        }
        if self.accept("[") {
            return Expression::ArrayLiteral(ArrayLiteral { items: self.expressions("]") });
        }
        match self.peek().cloned() {
            Some(Token::Number(n)) => {
                self.position += 1;
                Expression::Number(number(n))
            }
            Some(Token::Text(text)) => {
                self.position += 1;
                Expression::String(text)
            }
            Some(Token::Name(name)) if name.starts_with('%') => {
                self.position += 1;
                Expression::Constant(name)
            }
            Some(Token::Name(name)) if name.starts_with(':') => {
                self.position += 1;
                Expression::PublicReference(name[1..].to_string())
            }
            _ => {
                let pol = self.polynomial();
                if pol.namespace.is_none() && pol.index.is_none() && self.accept("(") {
                    let arguments = self.expressions(")");
                    return Expression::FunctionCall(FunctionCall { id: pol.name, arguments });
                }
                let is_next = self.accept("'");
                Expression::Reference(ShiftedPolynomialReference { is_next, pol })
            }
        }
    }

    fn polynomial(&mut self) -> NamespacedPolynomialReference<F> {
        let first = self.name();
        let (namespace, name) = if self.accept(".") {
            (Some(first), self.name())
        } else {
            (None, first)
        };
        let index = if self.accept("[") {
            let index = self.expression();
            self.expect("]");
            Some(Box::new(index))
        } else {
            None
        };
        NamespacedPolynomialReference { namespace, name, index }
    }

    fn array(&mut self) -> ArrayExpression<F> {
        let mut left = self.array_part();
        while self.accept("+") {
            let right = self.array_part();
            left = ArrayExpression::Concat(Box::new(left), Box::new(right));
        }
        left
    }

    fn array_part(&mut self) -> ArrayExpression<F> {
        self.expect("[");
        let items = self.expressions("]");
        if self.accept("*") {
            ArrayExpression::RepeatedValue(items)
        } else {
            ArrayExpression::Value(items)
        }
    }

    fn polynomial_names(&mut self) -> Vec<PolynomialName<F>> {
        let mut names = Vec::new();
        loop {
            let name = self.name();
            let array_size = if self.accept("[") {
                let size = self.expression();
                self.expect("]");
                Some(size)
            } else {
                None
            };
            names.push(PolynomialName { name, array_size });
            if !self.accept(",") {
                return names;
            }
        }
    }

    fn selected(&mut self) -> SelectedExpressions<Expression<F>> {
        let selector = if self.is_sign("{") { None } else { Some(self.expression()) };
        self.expect("{");
        SelectedExpressions { selector, expressions: self.expressions("}") }
    }

    fn statement(&mut self) -> PilStatement<F> {
        let start = self.tokens[self.position].0;
        let statement = if self.accept_word("constant") {
            let name = self.name();
            self.expect("=");
            PilStatement::ConstantDefinition(start, name, self.expression())
        } else if self.accept_word("public") {
            let name = self.name();
            self.expect("=");
            let pol = self.polynomial();
            self.expect("(");
            let index = self.expression();
            self.expect(")");
            PilStatement::PublicDeclaration(start, name, pol, index)
        } else if self.accept_word("namespace") {
            let name = self.name();
            self.expect("(");
            let degree = self.expression();
            self.expect(")");
            PilStatement::Namespace(start, name, degree)
        } else if self.accept_word("let") {
            let name = self.name();
            let value = if self.accept("=") { Some(self.expression()) } else { None };
            PilStatement::LetStatement(start, name, value)
        } else if self.accept_word("col") {
            self.column(start)
        } else {
            self.identity(start)
        };
        self.expect(";");
        statement
    }

    fn column(&mut self, start: usize) -> PilStatement<F> {
        if self.accept_word("witness") {
            let names = self.polynomial_names();
            if self.accept("(") {
                let params = self.params(")");
                assert!(self.accept_word("query"));
                let query = FunctionDefinition::Query(params, self.expression());
                return PilStatement::PolynomialCommitDeclaration(start, names, Some(query));
            }
            return PilStatement::PolynomialCommitDeclaration(start, names, None);
        }
        if self.accept_word("fixed") {
            let mut names = self.polynomial_names();
            if self.accept("=") {
                let name = names.pop().unwrap().name;
                let array = FunctionDefinition::Array(self.array());
                return PilStatement::PolynomialConstantDefinition(start, name, array);
            }
            if self.accept("(") {
                let name = names.pop().unwrap().name;
                let params = self.params(")");
                self.expect("{");
                let body = self.expression();
                self.expect("}");
                let mapping = FunctionDefinition::Mapping(params, body);
                return PilStatement::PolynomialConstantDefinition(start, name, mapping);
            }
            return PilStatement::PolynomialConstantDeclaration(start, names);
        }
        let name = self.name();
        self.expect("=");
        PilStatement::PolynomialDefinition(start, name, self.expression())
    }

    fn identity(&mut self, start: usize) -> PilStatement<F> {
        let selector = if self.is_sign("{") { None } else { Some(self.expression()) };
        if self.accept("=") {
            let right = self.expression();
            let left = Box::new(selector.unwrap());
            return PilStatement::PolynomialIdentity(
                start,
                Expression::BinaryOperation(left, BinaryOperator::Sub, Box::new(right)),
            );
        }
        self.expect("{");
        let expressions = self.expressions("}");
        if self.accept_word("connect") {
            self.expect("{");
            return PilStatement::ConnectIdentity(start, expressions, self.expressions("}"));
        }
        let left = SelectedExpressions { selector, expressions };
        if self.accept_word("in") {
            let right = self.selected();
            PilStatement::PlookupIdentity(start, left, right)
        } else {
            assert!(self.accept_word("is"));
            let right = self.selected();
            PilStatement::PermutationIdentity(start, left, right)
        }
    }
}

fn read(source: &str) -> Vec<PilStatement<F>> {
    let mut reader = Reader { tokens: tokens(source), position: 0 };
    let mut statements = Vec::new();
    while reader.peek().is_some() {
        statements.push(reader.statement());
    }
    statements
}

fn analyze(source: &str) -> Result<Analyzed<F>, AnalysisError> {
    process_pil_file_contents(source, &read(source))
}

fn error(source: &str) -> AnalysisError {
    match analyze(source) {
        Ok(_) => panic!("the program was accepted"),
        Err(error) => error,
    }
}

fn error_of(statements: Vec<PilStatement<F>>) -> AnalysisError {
    match process_pil_file_contents("", &statements) {
        Ok(_) => panic!("the program was accepted"),
        Err(error) => error,
    }
}

fn number(n: u64) -> F {
    GoldilocksField::new(n)
}

fn joined(items: &[String]) -> String {
    items.join(", ")
}

fn binary_sign(op: BinaryOperator) -> &'static str {
    match op {
        BinaryOperator::Add => "+",
        BinaryOperator::Sub => "-",
        BinaryOperator::Mul => "*",
        BinaryOperator::Div => "/",
        BinaryOperator::Mod => "%",
        BinaryOperator::Pow => "**",
        BinaryOperator::BinaryAnd => "&",
        BinaryOperator::BinaryXor => "^",
        BinaryOperator::BinaryOr => "|",
        BinaryOperator::ShiftLeft => "<<",
        BinaryOperator::ShiftRight => ">>",
        BinaryOperator::LogicalOr => "||",
        BinaryOperator::LogicalAnd => "&&",
        BinaryOperator::Less => "<",
        BinaryOperator::LessEqual => "<=",
        BinaryOperator::Equal => "==",
        BinaryOperator::NotEqual => "!=",
        BinaryOperator::GreaterEqual => ">=",
        BinaryOperator::Greater => ">",
    }
}

fn show_all(items: &[analyzed::Expression<F>]) -> String {
    joined(&items.iter().map(show).collect::<Vec<_>>())
}

fn show_reference(poly: &PolynomialReference) -> String {
    let index = match poly.index {
        None => String::new(),
        Some(i) => format!("[{}]", i),
    };
    format!("{}{}{}", poly.name, index, if poly.next { "'" } else { "" })
}

fn show(e: &analyzed::Expression<F>) -> String {
    match e {
        analyzed::Expression::Constant(name) => name.clone(),
        analyzed::Expression::Reference(Reference::LocalVar(_, name)) => name.clone(),
        analyzed::Expression::Reference(Reference::Poly(poly)) => show_reference(poly),
        analyzed::Expression::PublicReference(name) => format!(":{}", name),
        analyzed::Expression::Number(n) => format!("{}", n.to_integer()),
        analyzed::Expression::String(text) => format!("\"{}\"", text),
        analyzed::Expression::Tuple(items) => format!("({})", show_all(items)),
        analyzed::Expression::ArrayLiteral(array) => format!("[{}]", show_all(&array.items)),
        analyzed::Expression::LambdaExpression(lambda) => {
            format!("|{}| {}", joined(&lambda.params), show(&lambda.body))
        }
        analyzed::Expression::BinaryOperation(left, op, right) => {
            format!("({} {} {})", show(left), binary_sign(*op), show(right))
        }
        analyzed::Expression::UnaryOperation(op, value) => {
            let sign = match op {
                UnaryOperator::Plus => "+",
                UnaryOperator::Minus => "-",
                UnaryOperator::LogicalNot => "!",
            };
            format!("{}{}", sign, show(value))
        }
        analyzed::Expression::FunctionCall(call) => {
            format!("{}({})", call.id, show_all(&call.arguments))
        }
        analyzed::Expression::MatchExpression(scrutinee, arms) => {
            let arms: String = arms
                .iter()
                .map(|arm| {
                    let pattern = match &arm.pattern {
                        MatchPattern::CatchAll => "_".to_string(),
                        MatchPattern::Pattern(p) => show(p),
                    };
                    format!("{} => {}, ", pattern, show(&arm.value))
                })
                .collect();
            format!("match {} {{ {}}}", show(scrutinee), arms)
        }
    }
}

fn show_part(part: &RepeatedArray<F>) -> String {
    let star = if part.size() == part.pattern.len() as u64 { "" } else { "*" };
    format!("[{}]{}", show_all(&part.pattern), star)
}

fn show_selected(selected: &SelectedExpressions<analyzed::Expression<F>>) -> String {
    let selector = match &selected.selector {
        None => String::new(),
        Some(e) => format!("{} ", show(e)),
    };
    format!("{}{{ {} }}", selector, show_all(&selected.expressions))
}

fn show_identity(identity: &Identity<F>) -> String {
    match identity.kind {
        IdentityKind::Polynomial => match identity.left.selector.as_ref().unwrap() {
            analyzed::Expression::BinaryOperation(left, BinaryOperator::Sub, right) => {
                format!("{} = {};", show(left), show(right))
            }
            e => format!("{} = 0;", show(e)),
        },
        IdentityKind::Plookup => {
            format!("{} in {};", show_selected(&identity.left), show_selected(&identity.right))
        }
        IdentityKind::Permutation => {
            format!("{} is {};", show_selected(&identity.left), show_selected(&identity.right))
        }
        IdentityKind::Connect => format!(
            "{} connect {};",
            show_selected(&identity.left),
            show_selected(&identity.right)
        ),
    }
}

fn print(program: &Analyzed<F>) -> String {
    let mut text = String::new();
    for i in 0..program.constants.len() {
        let value = program.constants.value_at(i).to_integer();
        text += &format!("constant {} = {};\n", program.constants.name_at(i), value);
    }
    let mut current = String::new();
    for statement in &program.source_order {
        match statement {
            StatementIdentifier::Definition(absolute) => {
                let (symbol, value) = program.definitions.get(absolute).unwrap();
                let (namespace, name) = match absolute.rfind('.') {
                    None => ("", &absolute[..]),
                    Some(dot) => (&absolute[..dot], &absolute[dot + 1..]),
                };
                if namespace != current {
                    current = namespace.to_string();
                    text += &format!("namespace {}({});\n", namespace, symbol.degree);
                }
                let front = match symbol.kind {
                    SymbolKind::Poly(PolynomialType::Committed) => "col witness ",
                    SymbolKind::Poly(PolynomialType::Constant) => "col fixed ",
                    SymbolKind::Poly(PolynomialType::Intermediate) => "col ",
                    SymbolKind::Other() => "let ",
                };
                let length = match symbol.length {
                    None => String::new(),
                    Some(n) => format!("[{}]", n),
                };
                let value = match value {
                    None => String::new(),
                    Some(FunctionValueDefinition::Mapping(e)) => format!("(i) {{ {} }}", show(e)),
                    Some(FunctionValueDefinition::Query(e)) => format!("(i) query {}", show(e)),
                    Some(FunctionValueDefinition::Expression(e)) => format!(" = {}", show(e)),
                    Some(FunctionValueDefinition::Array(parts)) => {
                        let parts: Vec<String> = parts.iter().map(show_part).collect();
                        format!(" = {}", parts.join(" + "))
                    }
                };
                text += &format!("    {}{}{}{};\n", front, name, length, value);
            }
            StatementIdentifier::PublicDeclaration(name) => {
                let declaration = program.public_declarations.get(name).unwrap();
                text += &format!(
                    "    public {} = {}({});\n",
                    name,
                    show_reference(&declaration.polynomial),
                    declaration.index
                );
            }
            StatementIdentifier::Identity(i) => {
                text += &format!("    {}\n", show_identity(&program.identities[*i]));
            }
        }
    }
    text
}

fn analyzed_text(source: &str) -> String {
    match analyze(source) {
        Ok(program) => print(&program),
        Err(error) => panic!("{:?}", error),
    }
}

fn reference(name: &str) -> Expression<F> {
    Expression::Reference(ShiftedPolynomialReference {
        is_next: false,
        pol: NamespacedPolynomialReference {
            namespace: None,
            name: name.to_string(),
            index: None,
        },
    })
}

fn id_of(program: &Analyzed<F>, name: &str) -> u64 {
    program.definitions.get(name).unwrap().0.id
}

fn value_of<'a>(program: &'a Analyzed<F>, name: &str) -> &'a analyzed::Expression<F> {
    match &program.definitions.get(name).unwrap().1 {
        Some(FunctionValueDefinition::Expression(e)) => e,
        Some(FunctionValueDefinition::Mapping(e)) => e,
        Some(FunctionValueDefinition::Query(e)) => e,
        other => panic!("{:?}", other),
    }
}

#[test]
fn parse_print_analyzed() {
    let input = r#"constant %N = 65536;
    public P = T.pc(2);
namespace Bin(65536);
    col witness bla;
namespace T(65536);
    col fixed first_step = [1] + [0]*;
    col fixed line(i) { i };
    col fixed ops(i) { ((i < 7) && (6 >= !i)) };
    col witness pc;
    col witness XInv;
    col witness XIsZero;
    T.XIsZero = (1 - (T.X * T.XInv));
    (T.XIsZero * T.X) = 0;
    (T.XIsZero * (1 - T.XIsZero)) = 0;
    col witness instr_jmpz;
    col witness instr_jmpz_param_l;
    col witness instr_jmp;
    col witness instr_jmp_param_l;
    col witness instr_dec_CNT;
    col witness instr_assert_zero;
    (T.instr_assert_zero * (T.XIsZero - 1)) = 0;
    col witness X;
    col witness X_const;
    col witness X_read_free;
    col witness A;
    col witness CNT;
    col witness read_X_A;
    col witness read_X_CNT;
    col witness reg_write_X_CNT;
    col witness read_X_pc;
    col witness reg_write_X_A;
    T.X = ((((T.read_X_A * T.A) + (T.read_X_CNT * T.CNT)) + T.X_const) + (T.X_read_free * T.X_free_value));
    T.A' = (((T.first_step' * 0) + (T.reg_write_X_A * T.X)) + ((1 - (T.first_step' + T.reg_write_X_A)) * T.A));
    col witness X_free_value(i) query match T.pc { 0 => ("input", 1), 3 => ("input", (T.CNT + 1)), 7 => ("input", 0), };
    col fixed p_X_const = [0, 0, 0, 0, 0, 0, 0, 0, 0] + [0]*;
    col fixed p_X_read_free = [1, 0, 0, 1, 0, 0, 0, -1, 0] + [0]*;
    col fixed p_read_X_A = [0, 0, 0, 1, 0, 0, 0, 1, 1] + [0]*;
    col fixed p_read_X_CNT = [0, 0, 1, 0, 0, 0, 0, 0, 0] + [0]*;
    col fixed p_read_X_pc = [0, 0, 0, 0, 0, 0, 0, 0, 0] + [0]*;
    col fixed p_reg_write_X_A = [0, 0, 0, 1, 0, 0, 0, 1, 0] + [0]*;
    col fixed p_reg_write_X_CNT = [1, 0, 0, 0, 0, 0, 0, 0, 0] + [0]*;
    { T.pc, T.reg_write_X_A, T.reg_write_X_CNT } in (1 - T.first_step) { T.line, T.p_reg_write_X_A, T.p_reg_write_X_CNT };
"#;
    assert_eq!(input, analyzed_text(input));
}

#[test]
fn intermediate() {
    let input = r#"namespace N(65536);
    col witness x;
    col intermediate = x;
    intermediate = intermediate;
"#;
    let expected = r#"namespace N(65536);
    col witness x;
    col intermediate = N.x;
    N.intermediate = N.intermediate;
"#;
    assert_eq!(analyzed_text(input), expected);
}

#[test]
fn intermediate_nested() {
    let input = r#"namespace N(65536);
    col witness x;
    col intermediate = x;
    col int2 = intermediate;
    col int3 = int2 + intermediate;
    int3 = 2 * x;
"#;
    let expected = r#"namespace N(65536);
    col witness x;
    col intermediate = N.x;
    col int2 = N.intermediate;
    col int3 = (N.int2 + N.intermediate);
    N.int3 = (2 * N.x);
"#;
    assert_eq!(analyzed_text(input), expected);
}

#[test]
fn let_definitions() {
    let input = r#"namespace N(65536);
    let x;
    let t = |i| i + 1;
    let z = 7;
    let other = [1, 2];
    let other_fun = |i, j| (i + 7, (|k| k - i));
"#;
    let expected = r#"constant z = 7;
namespace N(65536);
    col witness x;
    col fixed t(i) { (i + 1) };
    let other = [1, 2];
    let other_fun = |i, j| ((i + 7), |k| (k - i));
"#;
    assert_eq!(analyzed_text(input), expected);
}

#[test]
fn intermediates_are_inlined_through_all_levels() {
    let source = "namespace N(8); col witness x; col a = x; col b = a; col c = b + a; \
                  c = 2 * x; { c, x } in b { x };";
    let program = analyze(source).ok().unwrap();
    assert!(is_inlinable(&program));
    let inlined = inline_intermediate_polynomials(&program);
    let texts: Vec<String> = inlined.iter().map(show_identity).collect();
    assert_eq!(
        texts,
        vec!["(N.x + N.x) = (2 * N.x);", "{ (N.x + N.x), N.x } in N.x { N.x };"]
    );
    for (before, after) in program.identities.iter().zip(&inlined) {
        assert_eq!(before.id, after.id);
        assert_eq!(before.kind, after.kind);
        assert_eq!(before.source.line, after.source.line);
    }
    // The program itself is as it was.
    assert_eq!(show_identity(&program.identities[0]), "N.c = (2 * N.x);");
}

#[test]
fn inlining_leaves_other_identities_alone() {
    let source = "namespace N(8); col witness x, y; x * y = 0;";
    let program = analyze(source).ok().unwrap();
    let inlined = inline_intermediate_polynomials(&program);
    assert_eq!(show_identity(&inlined[0]), show_identity(&program.identities[0]));
}

#[test]
fn inlining_reaches_every_part_of_an_expression() {
    let source = "namespace N(8); col witness x; col a = x; \
                  { match a { a => (a, -a), _ => [a], }, f(a), |i| a } in { x, x, x };";
    let program = analyze(source).ok().unwrap();
    let inlined = inline_intermediate_polynomials(&program);
    assert_eq!(
        show_identity(&inlined[0]),
        "{ match N.x { N.x => (N.x, -N.x), _ => [N.x], }, N.f(N.x), |i| N.x } in { N.x, N.x, N.x };"
    );
}

#[test]
fn a_shifted_intermediate_is_replaced_by_its_definition() {
    let source = "namespace N(8); col witness x; col a = x; a' = 0;";
    let program = analyze(source).ok().unwrap();
    let inlined = inline_intermediate_polynomials(&program);
    assert_eq!(show_identity(&inlined[0]), "N.x = 0;");
}

#[test]
fn intermediates_may_be_used_before_their_definition() {
    let source = "namespace N(8); col a = b; col b = x; col witness x; a = 0;";
    let program = analyze(source).ok().unwrap();
    assert!(is_inlinable(&program));
    let inlined = inline_intermediate_polynomials(&program);
    assert_eq!(show_identity(&inlined[0]), "N.x = 0;");
}

#[test]
fn circles_of_intermediates_cannot_be_inlined() {
    let circle = "namespace N(8); col a = b; col b = a; ";
    let used = analyze(&format!("{}a = 0;", circle)).ok().unwrap();
    assert!(!is_inlinable(&used));
    let in_selector = analyze(&format!("{}a {{ 1 }} in {{ 1 }};", circle)).ok().unwrap();
    assert!(!is_inlinable(&in_selector));
    // Nobody uses the circle.
    let unused = analyze(&format!("{}col witness x; x = 0;", circle)).ok().unwrap();
    assert!(is_inlinable(&unused));
    assert_eq!(show_identity(&inline_intermediate_polynomials(&unused)[0]), "N.x = 0;");
}

#[test]
fn a_constant_without_an_id_cannot_be_inlined() {
    let program = analyze("constant c = 3; namespace N(8); col witness x; x = c;").ok().unwrap();
    assert_eq!(show_identity(&program.identities[0]), "N.x = c;");
    assert!(!is_inlinable(&program));
}

#[test]
fn ids_count_up_for_each_kind() {
    let source = "namespace N(8); col witness a, b[4], c; col fixed d; col fixed e(i) { i }; \
                  col f = a; col g = f; let h = [1]; let k = \"text\";";
    let program = analyze(source).ok().unwrap();
    for (name, id) in [
        ("N.a", 0),
        ("N.b", 1),
        ("N.c", 5),
        ("N.d", 0),
        ("N.e", 1),
        ("N.f", 0),
        ("N.g", 1),
        ("N.h", 0),
        ("N.k", 1),
    ] {
        assert_eq!(id_of(&program, name), id, "{}", name);
    }
    assert_eq!(program.definitions.get("N.b").unwrap().0.length, Some(4));
    assert_eq!(program.definitions.get("N.a").unwrap().0.length, None);
    assert_eq!(program.definitions.get("N.a").unwrap().0.degree, 8);
}

#[test]
fn references_have_the_ids_of_their_columns() {
    let source = "namespace N(8); col witness a, b; col c = b'; c = M.d[2]; \
                  namespace M(8); col fixed d;";
    let program = analyze(source).ok().unwrap();
    match value_of(&program, "N.c") {
        analyzed::Expression::Reference(Reference::Poly(poly)) => {
            assert_eq!(poly.name, "N.b");
            assert_eq!(poly.poly_id, Some(PolyID { id: 1, ptype: PolynomialType::Committed }));
            assert!(poly.next);
            assert_eq!(poly.index, None);
        }
        other => panic!("{:?}", other),
    }
    match program.identities[0].left.selector.as_ref().unwrap() {
        analyzed::Expression::BinaryOperation(left, BinaryOperator::Sub, right) => {
            match &**left {
                analyzed::Expression::Reference(Reference::Poly(poly)) => {
                    let id = PolyID { id: 0, ptype: PolynomialType::Intermediate };
                    assert_eq!(poly.poly_id, Some(id));
                }
                other => panic!("{:?}", other),
            }
            match &**right {
                analyzed::Expression::Reference(Reference::Poly(poly)) => {
                    assert_eq!(poly.name, "M.d");
                    let id = PolyID { id: 0, ptype: PolynomialType::Constant };
                    assert_eq!(poly.poly_id, Some(id));
                    assert_eq!(poly.index, Some(2));
                    assert!(!poly.next);
                }
                other => panic!("{:?}", other),
            }
        }
        other => panic!("{:?}", other),
    }
}

#[test]
fn identities_count_up_for_each_kind() {
    let source = "namespace N(8); col witness a, b; a = 0; { a } in { b }; b = 0; \
                  a { a } is b { b }; { a, b } connect { b, a }; { b } in { a };";
    let program = analyze(source).ok().unwrap();
    let found: Vec<(IdentityKind, u64)> =
        program.identities.iter().map(|i| (i.kind, i.id)).collect();
    assert_eq!(
        found,
        vec![
            (IdentityKind::Polynomial, 0),
            (IdentityKind::Plookup, 0),
            (IdentityKind::Polynomial, 1),
            (IdentityKind::Permutation, 0),
            (IdentityKind::Connect, 0),
            (IdentityKind::Plookup, 1),
        ]
    );
    assert_eq!(show_identity(&program.identities[3]), "N.a { N.a } is N.b { N.b };");
    assert_eq!(show_identity(&program.identities[4]), "{ N.a, N.b } connect { N.b, N.a };");
    assert!(program.identities[0].right.selector.is_none());
    assert!(program.identities[0].right.expressions.is_empty());
    assert!(program.identities[0].left.expressions.is_empty());
}

#[test]
fn source_order_is_the_order_of_the_statements() {
    let source = "namespace N(8); col witness a; a = 0; public P = a(1); col b = a; b = 1;";
    let program = analyze(source).ok().unwrap();
    assert_eq!(
        program.source_order,
        vec![
            StatementIdentifier::Definition("N.a".to_string()),
            StatementIdentifier::Identity(0),
            StatementIdentifier::PublicDeclaration("P".to_string()),
            StatementIdentifier::Definition("N.b".to_string()),
            StatementIdentifier::Identity(1),
        ]
    );
}

#[test]
fn places_are_lines_of_the_input() {
    let source = "namespace N(8);\n  col witness x;\n\n  x = 0;\nx\n= 1; col y = x;\n";
    let program = analyze(source).ok().unwrap();
    let column = &program.definitions.get("N.x").unwrap().0.source;
    assert_eq!((column.line, column.file.as_str()), (2, "input"));
    assert_eq!(program.identities[0].source.line, 4);
    assert_eq!(program.identities[1].source.line, 5);
    assert_eq!(program.definitions.get("N.y").unwrap().0.source.line, 6);
}

#[test]
fn names_belong_to_the_namespace_around_them() {
    let source = "col witness g; namespace N(8); col witness x; x = M.x; \
                  namespace M(4); col witness x; x = N.x; f(x) = Global.g;";
    let program = analyze(source).ok().unwrap();
    let texts: Vec<String> = program.identities.iter().map(show_identity).collect();
    assert_eq!(texts, vec!["N.x = M.x;", "M.x = N.x;", "M.f(M.x) = Global.g;"]);
    assert_eq!(program.definitions.get("Global.g").unwrap().0.degree, 0);
    assert_eq!(program.definitions.get("N.x").unwrap().0.degree, 8);
    assert_eq!(program.definitions.get("M.x").unwrap().0.degree, 4);
}

#[test]
fn a_namespace_may_be_opened_again() {
    let source = "namespace N(8); col witness x; namespace M(8); namespace N(16); col witness y; \
                  x = y;";
    let program = analyze(source).ok().unwrap();
    assert_eq!(show_identity(&program.identities[0]), "N.x = N.y;");
    assert_eq!(program.definitions.get("N.y").unwrap().0.degree, 16);
}

#[test]
fn constants_are_not_namespaced() {
    let source = "constant %N = 2 ** 4; constant c = %N - 1; namespace T(%N); \
                  col witness x[c]; x[c - 14] = c; x[0] = %N;";
    let program = analyze(source).ok().unwrap();
    assert_eq!(program.constants.get("%N").unwrap().to_integer(), 16);
    assert_eq!(program.constants.get("c").unwrap().to_integer(), 15);
    assert_eq!(program.definitions.get("T.x").unwrap().0.degree, 16);
    assert_eq!(program.definitions.get("T.x").unwrap().0.length, Some(15));
    assert_eq!(show_identity(&program.identities[0]), "T.x[1] = c;");
    assert_eq!(show_identity(&program.identities[1]), "T.x[0] = %N;");
}

#[test]
fn constant_expressions_are_evaluated() {
    for (text, value) in [
        ("2 + 3 * 4", 14),
        ("-1", 0xffff_ffff_0000_0000),
        ("3 - 5 + 2", 0),
        ("7 / 2", 3),
        ("7 % 4", 3),
        ("2 ** 10", 1024),
        ("6 & 3", 2),
        ("6 ^ 3", 5),
        ("1 << 5", 32),
        ("33 >> 4", 2),
        ("(1 < 2) && (2 <= 2)", 1),
        ("(1 == 2) || (2 != 2)", 0),
        ("!0 + !7", 1),
    ] {
        let program = analyze(&format!("constant c = {};", text)).ok().unwrap();
        assert_eq!(program.constants.get("c").unwrap().to_integer(), value, "{}", text);
    }
}

#[test]
fn let_without_a_number_is_no_constant() {
    let program = analyze("namespace N(8); let a = 2; let b = a + 1; let c = |i| a;").ok().unwrap();
    assert_eq!(program.constants.get("b").unwrap().to_integer(), 3);
    assert_eq!(program.definitions.len(), 1);
    let (symbol, _) = program.definitions.get("N.c").unwrap();
    assert_eq!(symbol.kind, SymbolKind::Poly(PolynomialType::Constant));
    assert_eq!(show(value_of(&program, "N.c")), "a");
}

#[test]
fn local_variables_are_known_by_position() {
    let source = "namespace N(8); col witness x; \
                  let f = |i, j| (i, j, x, (|k, i| (i, j, k)), N.i); col witness i;";
    let program = analyze(source).ok().unwrap();
    let lambda = match value_of(&program, "N.f") {
        analyzed::Expression::LambdaExpression(lambda) => lambda,
        other => panic!("{:?}", other),
    };
    assert_eq!(lambda.params, vec!["i", "j"]);
    let items = match &*lambda.body {
        analyzed::Expression::Tuple(items) => items,
        other => panic!("{:?}", other),
    };
    let position = |e: &analyzed::Expression<F>| match e {
        analyzed::Expression::Reference(Reference::LocalVar(position, name)) => {
            (*position, name.clone())
        }
        other => panic!("{:?}", other),
    };
    assert_eq!(position(&items[0]), (0, "i".to_string()));
    assert_eq!(position(&items[1]), (1, "j".to_string()));
    assert_eq!(show(&items[2]), "N.x");
    assert!(matches!(&items[2], analyzed::Expression::Reference(Reference::Poly(_))));
    let inner = match &items[3] {
        analyzed::Expression::LambdaExpression(lambda) => match &*lambda.body {
            analyzed::Expression::Tuple(items) => items,
            other => panic!("{:?}", other),
        },
        other => panic!("{:?}", other),
    };
    // The inner `i` hides the outer one, and `j` moves behind the two parameters.
    assert_eq!(position(&inner[0]), (1, "i".to_string()));
    assert_eq!(position(&inner[1]), (3, "j".to_string()));
    assert_eq!(position(&inner[2]), (0, "k".to_string()));
    // A namespace in front means the column.
    assert!(matches!(&items[4], analyzed::Expression::Reference(Reference::Poly(_))));
    assert_eq!(show(&items[4]), "N.i");
}

#[test]
fn a_parameter_hides_a_constant() {
    let program = analyze("constant i = 5; namespace N(8); col fixed f(i) { i };").ok().unwrap();
    assert!(matches!(
        value_of(&program, "N.f"),
        analyzed::Expression::Reference(Reference::LocalVar(0, _))
    ));
}

#[test]
fn array_columns_fill_the_degree() {
    let source = "namespace N(8); col fixed a = [1, 2] + [3]* + [4]; col fixed b = [5, 6, 7]*; \
                  col fixed c = [1, 2, 3, 4, 5, 6, 7] + [8] + [9]*;";
    let program = analyze(source).ok().unwrap();
    let parts = |name: &str| match &program.definitions.get(name).unwrap().1 {
        Some(FunctionValueDefinition::Array(parts)) => {
            parts.iter().map(|p| (show_all(&p.pattern), p.size())).collect::<Vec<_>>()
        }
        other => panic!("{:?}", other),
    };
    assert_eq!(
        parts("N.a"),
        vec![("1, 2".to_string(), 2), ("3".to_string(), 5), ("4".to_string(), 1)]
    );
    assert_eq!(parts("N.b"), vec![("5, 6, 7".to_string(), 8)]);
    // Nothing is left for the part that repeats, so it is left out.
    assert_eq!(
        parts("N.c"),
        vec![("1, 2, 3, 4, 5, 6, 7".to_string(), 7), ("8".to_string(), 1)]
    );
}

#[test]
fn array_columns_that_miss_the_degree_are_rejected() {
    assert_eq!(
        error("namespace N(4); col fixed a = [1, 2];"),
        AnalysisError::ArraySizeMismatch
    );
    assert_eq!(
        error("namespace N(4); col fixed a = [1, 2, 3, 4, 5];"),
        AnalysisError::ArrayTooLarge
    );
    assert_eq!(
        error("namespace N(4); col fixed a = [1]* + [2]*;"),
        AnalysisError::RepeatedMoreThanOnce
    );
    assert_eq!(error("namespace N(4); col fixed a = []*;"), AnalysisError::EmptyPattern);
    assert!(analyze("namespace N(4); col fixed a = [1, 2, 3, 4] + []*;").is_ok());
}

#[test]
fn public_declarations_replace_each_other() {
    let source = "public A = N.x(1); public B = N.y(2); public A = N.y(3); \
                  namespace N(8); col witness x, y;";
    let program = analyze(source).ok().unwrap();
    assert_eq!(program.public_declarations.len(), 2);
    let a = program.public_declarations.get("A").unwrap();
    // The id is the number of declared names at that point.
    assert_eq!((a.id, a.index, a.polynomial.name.as_str()), (2, 3, "N.y"));
    assert_eq!(
        a.polynomial.poly_id,
        Some(PolyID { id: 1, ptype: PolynomialType::Committed })
    );
    let b = program.public_declarations.get("B").unwrap();
    assert_eq!((b.id, b.index, b.name.as_str()), (1, 2, "B"));
    assert_eq!(program.source_order.len(), 5);
}

fn file(path: &str, contents: &str, statements: Vec<PilStatement<F>>) -> PilFile<F> {
    PilFile {
        path: path.to_string(),
        file_name: path.rsplit('/').next().map(|name| name.to_string()),
        contents: contents.to_string(),
        statements,
    }
}

#[test]
fn a_file_is_handled_once() {
    let inner_text = "\n\ncol witness x;";
    let outer_text = "namespace N(8);\ncol witness y; x = y;";
    let mut statements = read(outer_text);
    statements.insert(1, PilStatement::Include(0, file("/a/inner.pil", inner_text, read(inner_text))));
    // The second time the statements of the file do not matter.
    statements.insert(2, PilStatement::Include(0, file("/a/inner.pil", "", vec![])));
    statements.push(PilStatement::Include(0, file("/a/inner.pil", inner_text, read(inner_text))));
    let program = process_pil_file(&file("/a/outer.pil", outer_text, statements)).ok().unwrap();
    assert_eq!(print(&program), "namespace N(8);\n    col witness x;\n    col witness y;\n    N.x = N.y;\n");
    let x = &program.definitions.get("N.x").unwrap().0.source;
    assert_eq!((x.line, x.file.as_str()), (3, "inner.pil"));
    // After the inner file the outer one is the current one again.
    let y = &program.definitions.get("N.y").unwrap().0.source;
    assert_eq!((y.line, y.file.as_str()), (2, "outer.pil"));
}

#[test]
fn a_file_that_names_itself_is_handled_once() {
    let text = "namespace N(8); col witness x;";
    let mut statements = read(text);
    statements.push(PilStatement::Include(0, file("/a/self.pil", text, vec![])));
    let program = process_pil_file(&file("/a/self.pil", text, statements)).ok().unwrap();
    assert_eq!(program.definitions.len(), 1);
}

#[test]
fn a_namespace_of_an_inner_file_stays_open() {
    let inner_text = "namespace M(4);";
    let statements = vec![
        PilStatement::Include(0, file("/m.pil", inner_text, read(inner_text))),
        PilStatement::LetStatement(0, "x".to_string(), None),
    ];
    let program = process_pil_file(&file("/o.pil", "", statements)).ok().unwrap();
    assert!(program.definitions.contains_key("M.x"));
}

#[test]
fn a_file_without_a_name_has_no_places() {
    let source = "col witness x;";
    let nameless = PilFile {
        path: "..".to_string(),
        file_name: None,
        contents: source.to_string(),
        statements: read(source),
    };
    match process_pil_file(&nameless) {
        Err(error) => assert_eq!(error, AnalysisError::NoFileName),
        Ok(_) => panic!("the file was accepted"),
    }
}

#[test]
fn names_are_defined_once() {
    assert_eq!(
        error("namespace N(8); col witness x; col fixed x;"),
        AnalysisError::AlreadyDefined("N.x".to_string())
    );
    assert_eq!(
        error("constant c = 1; let c = 2;"),
        AnalysisError::ConstantDefinedTwice("c".to_string())
    );
}

#[test]
fn unknown_names_are_rejected() {
    assert_eq!(
        error("namespace N(8); col witness x; x = y;"),
        AnalysisError::ColumnNotFound("N.y".to_string())
    );
    assert_eq!(
        error("namespace N(8); col y = M.z;"),
        AnalysisError::ColumnNotFound("M.z".to_string())
    );
    assert_eq!(
        error("public P = N.x(0);"),
        AnalysisError::ColumnNotFound("N.x".to_string())
    );
    assert_eq!(
        error("namespace N(8); let o = [1]; col y = o;"),
        AnalysisError::NotAColumn("N.o".to_string())
    );
    assert_eq!(
        error("constant c = %M;"),
        AnalysisError::ConstantNotFound("%M".to_string())
    );
}

#[test]
fn an_error_in_an_expression_comes_before_one_in_a_declaration() {
    assert_eq!(
        error("public P = N.p(0); namespace N(8); col witness x; x = y;"),
        AnalysisError::ColumnNotFound("N.y".to_string())
    );
}

#[test]
fn numbers_have_to_be_constant() {
    assert_eq!(error("constant c = x;"), AnalysisError::NotConstant);
    assert_eq!(error("namespace N(x);"), AnalysisError::NotConstant);
    assert_eq!(error("col witness x[y];"), AnalysisError::NotConstant);
    assert_eq!(error("col witness x; x[x] = 0;"), AnalysisError::NotConstant);
    assert_eq!(error("public P = x(y);"), AnalysisError::NotConstant);
    assert_eq!(error("constant c = 1 / 0;"), AnalysisError::UndefinedOperation);
    assert_eq!(error("constant c = 1 % 0;"), AnalysisError::UndefinedOperation);
}

#[test]
fn local_variables_are_plain_names() {
    assert_eq!(
        error("namespace N(8); col fixed f(i) { i' };"),
        AnalysisError::ShiftedLocalVariable("i".to_string())
    );
    assert_eq!(
        error("namespace N(8); col fixed f(i) { i[0] };"),
        AnalysisError::IndexedLocalVariable("i".to_string())
    );
}

#[test]
fn percent_names_have_no_namespace() {
    let poly = NamespacedPolynomialReference {
        namespace: Some("N".to_string()),
        name: "%N".to_string(),
        index: None,
    };
    let statement = PilStatement::PublicDeclaration(0, "P".to_string(), poly, Expression::Number(number(0)));
    assert_eq!(
        error_of(vec![statement]),
        AnalysisError::NamespacedConstant("%N".to_string())
    );
}

#[test]
fn definitions_fit_their_kind() {
    let mapping = || FunctionDefinition::Mapping(vec!["i".to_string()], Expression::Number(number(1)));
    let query = || FunctionDefinition::Query(vec!["i".to_string()], Expression::Number(number(1)));
    let expression = || FunctionDefinition::Expression(Expression::Number(number(1)));
    let x = |size: Option<Expression<F>>| PolynomialName { name: "x".to_string(), array_size: size };
    let fixed = |value| PilStatement::PolynomialConstantDefinition(0, "x".to_string(), value);
    let witness = |value| PilStatement::PolynomialCommitDeclaration(0, vec![x(None)], Some(value));
    assert_eq!(error_of(vec![fixed(query())]), AnalysisError::DefinitionKindMismatch);
    assert_eq!(error_of(vec![fixed(expression())]), AnalysisError::DefinitionKindMismatch);
    assert_eq!(error_of(vec![witness(mapping())]), AnalysisError::DefinitionKindMismatch);
    assert!(process_pil_file_contents("", &vec![fixed(mapping())]).is_ok());
    assert!(process_pil_file_contents("", &vec![witness(query())]).is_ok());
    let sized = PilStatement::PolynomialCommitDeclaration(
        0,
        vec![x(Some(Expression::Number(number(2))))],
        Some(query()),
    );
    assert_eq!(error_of(vec![sized]), AnalysisError::ArraySizeWithValue);
    let two = PilStatement::PolynomialCommitDeclaration(0, vec![x(None), x(None)], Some(query()));
    assert_eq!(error_of(vec![two]), AnalysisError::NotOnePolynomial);
    let none = PilStatement::PolynomialCommitDeclaration(0, vec![], Some(query()));
    assert_eq!(error_of(vec![none]), AnalysisError::NotOnePolynomial);
}

#[test]
fn statements_that_are_no_identities_are_rejected() {
    let call = PilStatement::FunctionCall(0, "f".to_string(), vec![]);
    assert_eq!(error_of(vec![call]), AnalysisError::NotAnIdentity);
    let macro_definition = PilStatement::MacroDefinition(0, "m".to_string(), vec![], vec![], None);
    assert_eq!(error_of(vec![macro_definition]), AnalysisError::MacroNotExpanded);
}

#[test]
fn free_inputs_are_rejected() {
    let free = || Expression::FreeInput(Box::new(Expression::Number(number(1))));
    let identity = PilStatement::PolynomialIdentity(0, free());
    assert_eq!(error_of(vec![identity]), AnalysisError::FreeInput);
    let constant = PilStatement::ConstantDefinition(0, "c".to_string(), free());
    assert_eq!(error_of(vec![constant]), AnalysisError::FreeInput);
}

#[test]
fn ids_do_not_run_over() {
    let big = || Some(Expression::Number(number(0xffff_ffff_0000_0000)));
    let columns = vec![
        PolynomialName { name: "x".to_string(), array_size: big() },
        PolynomialName { name: "y".to_string(), array_size: big() },
    ];
    let statement = PilStatement::PolynomialCommitDeclaration(0, columns, None);
    assert_eq!(error_of(vec![statement]), AnalysisError::TooManySymbols);
}

/// A field whose only element is no degree.
#[derive(Debug, Clone, Copy)]
struct NoField;

impl FieldElement for NoField {
    fn binary_operation(_: Self, _: BinaryOperator, _: Self) -> Option<Self> {
        unreachable!()
    }

    fn unary_operation(_: UnaryOperator, _: Self) -> Self {
        unreachable!()
    }

    fn degree(self) -> Option<u64> {
        unreachable!()
    }

    fn evaluate_binary_operation(_: Self, _: BinaryOperator, _: Self) -> Option<Self> {
        None
    }

    fn evaluate_unary_operation(_: UnaryOperator, value: Self) -> Self {
        value
    }

    fn to_degree(&self) -> Option<u64> {
        None
    }
}

#[test]
fn degrees_have_to_fit() {
    let degree = PilStatement::Namespace(0, "N".to_string(), Expression::Number(NoField));
    match process_pil_file_contents("", &vec![degree]) {
        Err(error) => assert_eq!(error, AnalysisError::DegreeTooLarge),
        Ok(_) => panic!("the program was accepted"),
    }
}

#[test]
fn an_error_keeps_later_statements_out() {
    // The second statement is wrong in another way than the first.
    assert_eq!(
        error("namespace N(x); constant c = 1 / 0;"),
        AnalysisError::NotConstant
    );
}

#[test]
fn a_bare_reference_is_an_identity_too() {
    let statements = vec![
        PilStatement::LetStatement(0, "x".to_string(), None),
        PilStatement::PolynomialIdentity(0, reference("x")),
    ];
    let program = process_pil_file_contents("", &statements).ok().unwrap();
    assert_eq!(show_identity(&program.identities[0]), "Global.x = 0;");
}

#[test]
fn more_statements_take_nothing_back() {
    let front = "constant c = 3; namespace N(8); col witness x; col y = x; y = 0; public P = x(1);";
    let back = "constant d = c; col witness z; z = y; col fixed f = [1]*;";
    let before = analyze(front).ok().unwrap();
    let after = analyze(&format!("{}{}", front, back)).ok().unwrap();
    for i in 0..before.constants.len() {
        let name = before.constants.name_at(i);
        assert_eq!(after.constants.get(name), before.constants.get(name));
    }
    for i in 0..before.definitions.len() {
        let name = before.definitions.name_at(i);
        assert_eq!(id_of(&after, name), id_of(&before, name));
    }
    let count = before.source_order.len();
    assert_eq!(after.source_order[..count], before.source_order[..]);
    assert_eq!(show_identity(&after.identities[0]), show_identity(&before.identities[0]));
    assert!(after.public_declarations.contains_key("P"));
}

#[test]
fn statements_may_come_in_parts() {
    let source = "constant c = 3; namespace N(8); col witness x; x = c; col y = x; y = 0;";
    let whole = analyze(source).ok().unwrap();
    let mut analyzer: PILAnalyzer<F> = PILAnalyzer::new();
    let mut front = read(source);
    let back = front.split_off(3);
    let name = Some("input".to_string());
    assert_eq!(analyzer.process_file_contents(name.clone(), source, &front), Ok(()));
    assert_eq!(analyzer.process_file_contents(name, source, &back), Ok(()));
    let parts = Analyzed::from(analyzer).ok().unwrap();
    assert_eq!(print(&parts), print(&whole));
}

#[test]
fn a_file_may_be_processed_twice() {
    let source = "namespace N(8); col witness x;";
    let mut analyzer: PILAnalyzer<F> = PILAnalyzer::new();
    let once = file("/a.pil", source, read(source));
    assert_eq!(analyzer.process_file(&once), Ok(()));
    assert_eq!(analyzer.process_file(&once), Ok(()));
    let program = Analyzed::from(analyzer).ok().unwrap();
    assert_eq!(program.source_order.len(), 1);
}

#[test]
fn inlining_twice_changes_nothing() {
    let source = "namespace N(8); col witness x; col a = x + 1; col b = a * a; b = a; { b } in { x };";
    let mut program = analyze(source).ok().unwrap();
    let once = inline_intermediate_polynomials(&program);
    let texts: Vec<String> = once.iter().map(show_identity).collect();
    program.identities = once;
    assert!(is_inlinable(&program));
    let twice = inline_intermediate_polynomials(&program);
    assert_eq!(twice.iter().map(show_identity).collect::<Vec<_>>(), texts);
    assert_eq!(texts[0], "((N.x + 1) * (N.x + 1)) = (N.x + 1);");
}

#[test]
fn let_is_a_shorthand() {
    let short = "namespace N(8); let x; let f = |i| i * 2; let c = 3 + 4;";
    let long = "namespace N(8); col witness x; col fixed f(i) { i * 2 }; constant c = 3 + 4;";
    assert_eq!(analyzed_text(short), analyzed_text(long));
}

#[test]
fn columns_may_be_declared_together() {
    let together = "namespace N(8); col witness x, y[2], z;";
    let apart = "namespace N(8); col witness x; col witness y[2]; col witness z;";
    assert_eq!(analyzed_text(together), analyzed_text(apart));
    assert_eq!(id_of(&analyze(together).ok().unwrap(), "N.z"), 3);
}

#[test]
fn an_array_without_elements_takes_no_id() {
    let program = analyze("namespace N(8); col witness x[0], y;").ok().unwrap();
    assert_eq!(id_of(&program, "N.x"), 0);
    assert_eq!(id_of(&program, "N.y"), 0);
}

#[test]
fn qualified_expressions_mean_the_same_everywhere() {
    let columns = "constant c = 2; namespace N(8); col witness x, y;";
    let identity = "N.x * N.y' + c = 0;";
    let inside = analyze(&format!("{}{}", columns, identity)).ok().unwrap();
    let outside = analyze(&format!("{}namespace M(8); {}", columns, identity)).ok().unwrap();
    assert_eq!(show_identity(&inside.identities[0]), "((N.x * N.y') + c) = 0;");
    assert_eq!(show_identity(&outside.identities[0]), "((N.x * N.y') + c) = 0;");
}

#[test]
fn a_column_is_found_wherever_it_is_defined() {
    // Before its definition and from another namespace.
    let source = "namespace M(8); N.x = 0; namespace N(8); x = 0; col witness x; x = 0;";
    let program = analyze(source).ok().unwrap();
    for identity in &program.identities {
        assert_eq!(show_identity(identity), "N.x = 0;");
    }
}

#[test]
fn a_constant_defined_later_changes_what_its_name_means_from_there_on() {
    let source = "namespace N(8); col witness c, x; x = c; constant c = 5; x = c; x = N.c;";
    let program = analyze(source).ok().unwrap();
    let texts: Vec<String> = program.identities.iter().map(show_identity).collect();
    assert_eq!(texts, vec!["N.x = N.c;", "N.x = c;", "N.x = N.c;"]);
}

#[test]
fn a_file_is_analyzed_like_its_text() {
    let source = "constant c = 2;\nnamespace N(8);\ncol witness x;\ncol y = x;\ny = c; public P = x(1);";
    let of_text = analyze(source).ok().unwrap();
    let of_file = process_pil_file(&file("/a/f.pil", source, read(source))).ok().unwrap();
    assert_eq!(print(&of_file), print(&of_text));
    for i in 0..of_text.definitions.len() {
        let name = of_text.definitions.name_at(i);
        let (text, other) = (of_text.definitions.get(name).unwrap(), of_file.definitions.get(name).unwrap());
        assert_eq!(text.0.id, other.0.id);
        assert_eq!(text.0.source.line, other.0.source.line);
        assert_eq!((text.0.source.file.as_str(), other.0.source.file.as_str()), ("input", "f.pil"));
    }
    assert_eq!(of_file.identities[0].source.file, "f.pil");
    assert_eq!(of_file.identities[0].source.line, of_text.identities[0].source.line);
    let declaration = of_file.public_declarations.get("P").unwrap();
    assert_eq!((declaration.source.line, declaration.source.file.as_str()), (5, "f.pil"));
    // An error is the same too.
    let wrong = "col witness x; x = y;";
    let rejected = process_pil_file(&file("/a/f.pil", wrong, read(wrong))).err();
    assert_eq!(rejected, analyze(wrong).err());
}

#[test]
fn the_ids_of_a_kind_leave_no_gaps() {
    let program = analyze("namespace N(8); col witness a[3], b; col fixed f; col witness c[2];").ok().unwrap();
    let mut found = Vec::new();
    for name in ["N.a", "N.b", "N.c"] {
        let symbol = &program.definitions.get(name).unwrap().0;
        found.extend(symbol.id..symbol.id + symbol.length.unwrap_or(1));
    }
    assert_eq!(found, vec![0, 1, 2, 3, 4, 5]);
}

#[test]
fn polynomials_that_share_a_definition_are_inlined_alike() {
    // `a` is needed by both identities and on two ways by the second.
    let source = "namespace N(8); col witness x; col a = x * x; col b = a + 1; a = 0; a + b = b;";
    let program = analyze(source).ok().unwrap();
    let texts: Vec<String> =
        inline_intermediate_polynomials(&program).iter().map(show_identity).collect();
    assert_eq!(
        texts,
        vec!["(N.x * N.x) = 0;", "((N.x * N.x) + ((N.x * N.x) + 1)) = ((N.x * N.x) + 1);"]
    );
}
