use vstd::prelude::*;

verus! {

/// Delimiter of a group of tokens.
#[derive(Debug, Clone, Copy, PartialEq, Eq, Structural)]
pub enum Delimiter {
    Parenthesis,
    Brace,
    Bracket,
    Invisible,
}

/// One token of a method body. Groups are written out flat: an `Open`
/// token, the group's contents, then the matching `Close` token.
#[derive(Debug, Clone)]
pub enum Token {
    Ident(String),
    Punct(char),
    Literal(String),
    Open(Delimiter),
    Close(Delimiter),
    /// Stands only in generated bodies, for `super.name(`: an open call of the
    /// core of method symbol `method` on the receiver unwrapped `layers`
    /// times, to which the arguments and the closing parenthesis that follow
    /// belong.
    CoreCall { method: usize, layers: usize },
}

impl Token {
    /// A copy of this token.
    pub fn duplicate(&self) -> (r: Token)
        ensures
            r == *self,
    {
        match self {
            Token::Ident(s) => Token::Ident(s.clone()),
            Token::Punct(c) => Token::Punct(*c),
            Token::Literal(s) => Token::Literal(s.clone()),
            Token::Open(d) => Token::Open(*d),
            Token::Close(d) => Token::Close(*d),
            Token::CoreCall { method, layers } => Token::CoreCall { method: *method, layers: *layers },
        }
    }
}

/// One entry of a parameter list.
#[derive(Debug, Clone)]
pub enum FnInput {
    /// A `self` receiver, in the form it was written.
    Receiver { has_attributes: bool, is_reference: bool, has_lifetime: bool, is_mutable: bool },
    /// A typed parameter; `name` is `None` where its pattern is not a plain identifier.
    Typed { name: Option<String>, pattern: String, type_annotation: String },
}

/// `let [ref] name: type_annotation = default_value;`
#[derive(Debug, Clone)]
pub struct MeaningField {
    pub is_ref: bool,
    pub name: String,
    pub type_annotation: String,
    pub default_value: String,
}

/// The constructor of a meaning: its parameters, the arguments of its
/// `super(...)` line and the statements that follow that line.
#[derive(Debug, Clone)]
pub struct MeaningConstructor {
    pub attributes: Vec<String>,
    pub visibility: String,
    pub inputs: Vec<FnInput>,
    pub super_arguments: Vec<String>,
    pub statements: String,
}

/// A method declaration.
#[derive(Debug, Clone)]
pub struct MeaningMethod {
    /// Attributes other than documentation and `inheritdoc`.
    pub attributes: Vec<String>,
    pub doc: Option<String>,
    pub inherit_doc: bool,
    pub visibility: String,
    pub is_override: bool,
    pub name: String,
    pub inputs: Vec<FnInput>,
    pub result_type: Option<String>,
    pub statements: Vec<Token>,
}

/// A meaning declaration: a record type that extends at most one other.
#[derive(Debug, Clone)]
pub struct Meaning {
    pub attributes: Vec<String>,
    pub visibility: String,
    pub name: String,
    pub inherits: Option<String>,
    pub fields: Vec<MeaningField>,
    pub constructor: Option<MeaningConstructor>,
    pub methods: Vec<MeaningMethod>,
}

} // verus!
