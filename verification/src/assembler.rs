//! The assembler: a first pass that reads tokens into statements and label
//! definitions, and a second pass that resolves every operand to a byte and
//! emits two bytes for each statement.
//!
//! The source is a sequence of whitespace-delimited tokens:
//!
//! - a token that begins with `/*` opens a comment, and a token that ends
//!   with `*/` closes it; the tokens between them are skipped;
//! - `@name = value` binds a label to a value, and `@name` alone binds it to
//!   the index of the next instruction slot;
//! - a mnemonic takes the tokens that follow it as its operands;
//! - an operand is a decimal number, a `0x` or `0b` number, a register name
//!   `V0` to `VF`, or a label reference `@name`;
//! - any other token is skipped.

use vstd::prelude::*;
use crate::isa::{lemma_decode_encode, Instruction};
use crate::machine::{current_instruction, fetched, run_of, MachineState};
use crate::text::{
    begins_with, digit_of, digit_value, ends_with, has_suffix, number, parse_number, remove_all,
    same_chars, spells, split_tokens, starts_with, tail, to_chars, token_views, tokenize, without,
};

verus! {

/// Why a source text could not be assembled.
#[derive(Clone, Copy, Debug, PartialEq, Eq)]
pub enum AssembleError {
    /// The source ended where a value or an operand was expected.
    ExpectedValue,
    /// A token that begins with `0x` is no hexadecimal byte.
    NotHex,
    /// A token that begins with `0b` is no binary byte.
    NotBinary,
    /// A token read as a decimal number is no decimal byte.
    NotDecimal,
    /// A label is referred to and never defined.
    LabelNotFound,
    /// A label is defined through other labels that lead back to it.
    LabelCycle,
    /// An instruction or a label falls on a slot past the 256th.
    SlotOverflow,
}

/// The instructions by name.
#[derive(Clone, Copy, Debug, PartialEq, Eq, Structural)]
pub enum Mnemonic {
    Jump,
    IfEq,
    IfNeq,
    IfLe,
    SetRr,
    SetRpc,
    SetRm,
    SetRc,
    SetPcr,
    SetMr,
    Add,
    Sub,
    And,
    Or,
    Xor,
    Not,
}

/// An operand as the source names it: a label still to be looked up, or a
/// byte.
#[derive(Clone, Debug, PartialEq, Eq)]
pub enum Label {
    Name(Vec<char>),
    Value(u8),
}

/// A `Label` as a mathematical value.
pub enum LabelView {
    Name(Seq<char>),
    Value(u8),
}

impl View for Label {
    type V = LabelView;

    open spec fn view(&self) -> LabelView {
        match self {
            Label::Name(name) => LabelView::Name(name@),
            Label::Value(value) => LabelView::Value(*value),
        }
    }
}

/// One instruction of the source: its mnemonic and its operands in source
/// order.
#[derive(Clone, Debug, PartialEq, Eq)]
pub struct Statement {
    pub mnemonic: Mnemonic,
    pub operands: Vec<Label>,
}

/// A `Statement` as a mathematical value.
pub struct StatementView {
    pub mnemonic: Mnemonic,
    pub operands: Seq<LabelView>,
}

/// The operands held by a vector of labels.
pub open spec fn label_views(labels: Seq<Label>) -> Seq<LabelView> {
    Seq::new(labels.len(), |i: int| labels[i]@)
}

impl View for Statement {
    type V = StatementView;

    open spec fn view(&self) -> StatementView {
        StatementView { mnemonic: self.mnemonic, operands: label_views(self.operands@) }
    }
}

/// The statements held by a vector.
pub open spec fn statement_views(statements: Seq<Statement>) -> Seq<StatementView> {
    Seq::new(statements.len(), |i: int| statements[i]@)
}

/// One label definition: the name and what it is bound to.
#[derive(Clone, Debug, PartialEq, Eq)]
pub struct Definition {
    pub name: Vec<char>,
    pub label: Label,
}

/// The label definitions of a source, in source order. A name defined more
/// than once means what its last definition says.
#[derive(Clone, Debug, PartialEq, Eq)]
pub struct SymbolTable {
    pub definitions: Vec<Definition>,
}

impl View for SymbolTable {
    type V = Seq<(Seq<char>, LabelView)>;

    open spec fn view(&self) -> Seq<(Seq<char>, LabelView)> {
        Seq::new(
            self.definitions@.len(),
            |i: int| (self.definitions@[i].name@, self.definitions@[i].label@),
        )
    }
}

/// What the first pass has read.
#[derive(Clone, Debug, PartialEq, Eq)]
pub struct Listing {
    /// Whether the last token read lies inside a comment.
    pub in_comment: bool,
    /// The instructions, in source order; the index of one is its slot.
    pub statements: Vec<Statement>,
    /// The label definitions, in source order.
    pub labels: SymbolTable,
}

/// A `Listing` as a mathematical value.
pub struct ListingView {
    pub in_comment: bool,
    pub statements: Seq<StatementView>,
    pub definitions: Seq<(Seq<char>, LabelView)>,
}

impl View for Listing {
    type V = ListingView;

    open spec fn view(&self) -> ListingView {
        ListingView {
            in_comment: self.in_comment,
            statements: statement_views(self.statements@),
            definitions: self.labels@,
        }
    }
}

impl ListingView {
    /// The listing of an empty source.
    pub open spec fn empty() -> ListingView {
        ListingView { in_comment: false, statements: Seq::empty(), definitions: Seq::empty() }
    }
}

/// The mnemonic that a token spells, if it spells one.
pub open spec fn mnemonic_of(token: Seq<char>) -> Option<Mnemonic> {
    if token == "jump"@ {
        Some(Mnemonic::Jump)
    } else if token == "ifeq"@ {
        Some(Mnemonic::IfEq)
    } else if token == "ifneq"@ {
        Some(Mnemonic::IfNeq)
    } else if token == "ifle"@ {
        Some(Mnemonic::IfLe)
    } else if token == "setrr"@ {
        Some(Mnemonic::SetRr)
    } else if token == "setrpc"@ {
        Some(Mnemonic::SetRpc)
    } else if token == "setrm"@ {
        Some(Mnemonic::SetRm)
    } else if token == "setrc"@ {
        Some(Mnemonic::SetRc)
    } else if token == "setpcr"@ {
        Some(Mnemonic::SetPcr)
    } else if token == "setmr"@ {
        Some(Mnemonic::SetMr)
    } else if token == "add"@ {
        Some(Mnemonic::Add)
    } else if token == "sub"@ {
        Some(Mnemonic::Sub)
    } else if token == "and"@ {
        Some(Mnemonic::And)
    } else if token == "or"@ {
        Some(Mnemonic::Or)
    } else if token == "xor"@ {
        Some(Mnemonic::Xor)
    } else if token == "not"@ {
        Some(Mnemonic::Not)
    } else {
        None
    }
}

impl Mnemonic {
    /// Number of operands that the mnemonic takes.
    pub open spec fn arity(self) -> nat {
        match self {
            Mnemonic::Jump | Mnemonic::SetRpc | Mnemonic::SetPcr | Mnemonic::Not => 1,
            _ => 2,
        }
    }

    /// The instruction that the mnemonic makes of its operands, `a` the
    /// first and `b` the second in source order. A mnemonic with one operand
    /// does not look at `b`. `setmr` names the address first and the
    /// register second; every other mnemonic names its register first.
    pub open spec fn instruction(self, a: u8, b: u8) -> Instruction {
        match self {
            Mnemonic::Jump => Instruction::Jump { target: a },
            Mnemonic::IfEq => Instruction::IfEq { x: a, y: b },
            Mnemonic::IfNeq => Instruction::IfNeq { x: a, y: b },
            Mnemonic::IfLe => Instruction::IfLe { x: a, y: b },
            Mnemonic::SetRr => Instruction::SetRr { x: a, y: b },
            Mnemonic::SetRpc => Instruction::SetRpc { x: a },
            Mnemonic::SetRm => Instruction::SetRm { x: a, addr: b },
            Mnemonic::SetRc => Instruction::SetRc { x: a, value: b },
            Mnemonic::SetPcr => Instruction::SetPcr { x: a },
            Mnemonic::SetMr => Instruction::SetMr { x: b, addr: a },
            Mnemonic::Add => Instruction::Add { x: a, y: b },
            Mnemonic::Sub => Instruction::Sub { x: a, y: b },
            Mnemonic::And => Instruction::And { x: a, y: b },
            Mnemonic::Or => Instruction::Or { x: a, y: b },
            Mnemonic::Xor => Instruction::Xor { x: a, y: b },
            Mnemonic::Not => Instruction::Not { x: a },
        }
    }
}

/// The register that a token names: `V` and one hexadecimal digit.
pub open spec fn register_of(token: Seq<char>) -> Option<u8> {
    if token.len() == 2 && token[0] == 'V' {
        match digit_of(token[1]) {
            Some(digit) => if digit < 16 {
                Some(digit as u8)
            } else {
                None
            },
            None => None,
        }
    } else {
        None
    }
}

/// The byte that a token other than a label reference stands for. A token
/// that begins with `0x` is read in base 16 and one that begins with `0b` in
/// base 2, in both cases from the third character on; a register name is
/// its index; anything else is read in base 10.
pub open spec fn literal(token: Seq<char>) -> Result<u8, AssembleError> {
    if begins_with(token, seq!['0', 'x']) {
        match number(token.skip(2), 16) {
            Some(value) => Ok(value),
            None => Err(AssembleError::NotHex),
        }
    } else if begins_with(token, seq!['0', 'b']) {
        match number(token.skip(2), 2) {
            Some(value) => Ok(value),
            None => Err(AssembleError::NotBinary),
        }
    } else {
        match register_of(token) {
            Some(index) => Ok(index),
            None => match number(token, 10) {
                Some(value) => Ok(value),
                None => Err(AssembleError::NotDecimal),
            },
        }
    }
}

/// The name that a label token defines or refers to: the token without its
/// `@` characters.
pub open spec fn label_name(token: Seq<char>) -> Seq<char> {
    without(token, seq!['@'])
}

/// Whether a token is a label token: it begins with `@`.
pub open spec fn is_label(token: Seq<char>) -> bool {
    begins_with(token, seq!['@'])
}

/// The operand that a token stands for: a reference to a label where it
/// begins with `@`, and the byte it spells otherwise.
pub open spec fn operand(token: Seq<char>) -> Result<LabelView, AssembleError> {
    if is_label(token) {
        Ok(LabelView::Name(label_name(token)))
    } else {
        match literal(token) {
            Ok(value) => Ok(LabelView::Value(value)),
            Err(error) => Err(error),
        }
    }
}

/// The operand at position `at` of `tokens`, where the source must hold
/// one.
pub open spec fn operand_at(tokens: Seq<Seq<char>>, at: int) -> Result<
    LabelView,
    AssembleError,
> {
    if 0 <= at < tokens.len() {
        operand(tokens[at])
    } else {
        Err(AssembleError::ExpectedValue)
    }
}

/// The statement that `mnemonic` makes with the tokens that follow it. The
/// operands are read in order, and the first that fails decides the error.
pub open spec fn statement_of(mnemonic: Mnemonic, following: Seq<Seq<char>>) -> Result<
    StatementView,
    AssembleError,
> {
    match operand_at(following, 0) {
        Err(error) => Err(error),
        Ok(first) => if mnemonic.arity() == 1 {
            Ok(StatementView { mnemonic, operands: seq![first] })
        } else {
            match operand_at(following, 1) {
                Err(error) => Err(error),
                Ok(second) => Ok(StatementView { mnemonic, operands: seq![first, second] }),
            }
        },
    }
}

/// Whether a token opens a comment.
pub open spec fn opens_comment(token: Seq<char>) -> bool {
    begins_with(token, seq!['/', '*'])
}

/// Whether a token closes a comment. A token that opens a comment is not
/// asked.
pub open spec fn closes_comment(token: Seq<char>) -> bool {
    ends_with(token, seq!['*', '/'])
}

/// Whether a token is the `=` of a label definition.
pub open spec fn is_equals(token: Seq<char>) -> bool {
    token == seq!['=']
}

/// Largest number of instruction slots in a program.
pub const MAX_SLOTS: usize = 256;

/// What the first pass makes of the first item of `tokens`, which is not
/// empty: how many tokens the item takes and the listing after it.
///
/// A token that opens a comment, or closes one, only sets the comment state;
/// inside a comment every other token is skipped. Outside, a label token
/// followed by `=` binds its name to the operand after the `=`, and a label
/// token alone binds it to the number of statements read so far. A mnemonic
/// reads its operands from the tokens that follow, whatever they look like,
/// and adds a statement. Anything else is skipped. Slot indices end at 255:
/// a label bound to a later slot and a statement on one are errors.
pub open spec fn read_item(tokens: Seq<Seq<char>>, listing: ListingView) -> Result<
    (nat, ListingView),
    AssembleError,
> {
    let token = tokens[0];
    if opens_comment(token) {
        Ok((1, ListingView { in_comment: true, ..listing }))
    } else if closes_comment(token) {
        Ok((1, ListingView { in_comment: false, ..listing }))
    } else if listing.in_comment {
        Ok((1, listing))
    } else if is_label(token) {
        if tokens.len() >= 2 && is_equals(tokens[1]) {
            match operand_at(tokens, 2) {
                Err(error) => Err(error),
                Ok(value) => Ok(
                    (
                        3,
                        ListingView {
                            definitions: listing.definitions.push((label_name(token), value)),
                            ..listing
                        },
                    ),
                ),
            }
        } else if listing.statements.len() >= MAX_SLOTS {
            Err(AssembleError::SlotOverflow)
        } else {
            Ok(
                (
                    1,
                    ListingView {
                        definitions: listing.definitions.push(
                            (label_name(token), LabelView::Value(listing.statements.len() as u8)),
                        ),
                        ..listing
                    },
                ),
            )
        }
    } else {
        match mnemonic_of(token) {
            None => Ok((1, listing)),
            Some(mnemonic) => match statement_of(mnemonic, tokens.skip(1)) {
                Err(error) => Err(error),
                Ok(statement) => if listing.statements.len() >= MAX_SLOTS {
                    Err(AssembleError::SlotOverflow)
                } else {
                    Ok(
                        (
                            1 + mnemonic.arity(),
                            ListingView {
                                statements: listing.statements.push(statement),
                                ..listing
                            },
                        ),
                    )
                },
            },
        }
    }
}

/// The listing after the first pass has read `tokens`, item by item,
/// starting from `listing`; the first item that fails decides the error.
pub open spec fn parse_from(tokens: Seq<Seq<char>>, listing: ListingView) -> Result<
    ListingView,
    AssembleError,
>
    decreases tokens.len(),
{
    if tokens.len() == 0 {
        Ok(listing)
    } else {
        match read_item(tokens, listing) {
            Err(error) => Err(error),
            Ok((taken, next)) => parse_from(tokens.skip(taken as int), next),
        }
    }
}

/// An item takes at least one token and no more than there are.
pub proof fn lemma_item_size(tokens: Seq<Seq<char>>, listing: ListingView)
    requires
        tokens.len() > 0,
    ensures
        read_item(tokens, listing) matches Ok((taken, _)) ==> 1 <= taken <= tokens.len(),
{
}

/// The listing of a whole source.
pub open spec fn parsed(tokens: Seq<Seq<char>>) -> Result<ListingView, AssembleError> {
    parse_from(tokens, ListingView::empty())
}

/// What the last definition of `name` binds it to, if there is one.
pub open spec fn lookup(definitions: Seq<(Seq<char>, LabelView)>, name: Seq<char>) -> Option<
    LabelView,
>
    decreases definitions.len(),
{
    if definitions.len() == 0 {
        None
    } else if definitions.last().0 == name {
        Some(definitions.last().1)
    } else {
        lookup(definitions.drop_last(), name)
    }
}

/// The byte that `label` stands for when at most `hops` definitions may be
/// followed: a value is itself, and a name is what its definition resolves
/// to.
pub open spec fn resolve_within(
    definitions: Seq<(Seq<char>, LabelView)>,
    label: LabelView,
    hops: nat,
) -> Result<u8, AssembleError>
    decreases hops,
{
    match label {
        LabelView::Value(value) => Ok(value),
        LabelView::Name(name) => match lookup(definitions, name) {
            None => Err(AssembleError::LabelNotFound),
            Some(bound) => if hops == 0 {
                Err(AssembleError::LabelCycle)
            } else {
                resolve_within(definitions, bound, (hops - 1) as nat)
            },
        },
    }
}

/// The byte that `label` stands for under `definitions`. A chain of names
/// is followed through as many definitions as there are; one that has not
/// reached a value by then goes round in a circle.
pub open spec fn resolve(definitions: Seq<(Seq<char>, LabelView)>, label: LabelView) -> Result<
    u8,
    AssembleError,
> {
    resolve_within(definitions, label, definitions.len())
}

/// The byte of operand `index` of a statement; a statement that lacks the
/// operand is reported as a source that ended early.
pub open spec fn resolved_operand(
    statement: StatementView,
    definitions: Seq<(Seq<char>, LabelView)>,
    index: int,
) -> Result<u8, AssembleError> {
    if 0 <= index < statement.operands.len() {
        resolve(definitions, statement.operands[index])
    } else {
        Err(AssembleError::ExpectedValue)
    }
}

/// The instruction that a statement stands for once its operands are
/// resolved, the first operand first.
pub open spec fn resolved(
    statement: StatementView,
    definitions: Seq<(Seq<char>, LabelView)>,
) -> Result<Instruction, AssembleError> {
    match resolved_operand(statement, definitions, 0) {
        Err(error) => Err(error),
        Ok(a) => if statement.mnemonic.arity() == 1 {
            Ok(statement.mnemonic.instruction(a, 0))
        } else {
            match resolved_operand(statement, definitions, 1) {
                Err(error) => Err(error),
                Ok(b) => Ok(statement.mnemonic.instruction(a, b)),
            }
        },
    }
}

/// The bytes of `statements`, two for each in order, or the error of the
/// first statement that cannot be resolved.
pub open spec fn emitted_bytes(
    statements: Seq<StatementView>,
    definitions: Seq<(Seq<char>, LabelView)>,
) -> Result<Seq<u8>, AssembleError>
    decreases statements.len(),
{
    if statements.len() == 0 {
        Ok(Seq::empty())
    } else {
        match emitted_bytes(statements.drop_last(), definitions) {
            Err(error) => Err(error),
            Ok(bytes) => match resolved(statements.last(), definitions) {
                Err(error) => Err(error),
                Ok(instruction) => Ok(
                    bytes.push(instruction.encoding().0).push(instruction.encoding().1),
                ),
            },
        }
    }
}

/// The binary program that a sequence of tokens assembles to.
pub open spec fn assembled(tokens: Seq<Seq<char>>) -> Result<Seq<u8>, AssembleError> {
    match parsed(tokens) {
        Err(error) => Err(error),
        Ok(listing) => emitted_bytes(listing.statements, listing.definitions),
    }
}

/// The binary program that a source text assembles to.
pub open spec fn assembly(text: Seq<char>) -> Result<Seq<u8>, AssembleError> {
    assembled(split_tokens(text))
}

/// The mnemonic that a token spells, if it spells one.
pub fn mnemonic(token: &Vec<char>) -> (found: Option<Mnemonic>)
    ensures
        found == mnemonic_of(token@),
{
    if spells(token, "jump") {
        Some(Mnemonic::Jump)
    } else if spells(token, "ifeq") {
        Some(Mnemonic::IfEq)
    } else if spells(token, "ifneq") {
        Some(Mnemonic::IfNeq)
    } else if spells(token, "ifle") {
        Some(Mnemonic::IfLe)
    } else if spells(token, "setrr") {
        Some(Mnemonic::SetRr)
    } else if spells(token, "setrpc") {
        Some(Mnemonic::SetRpc)
    } else if spells(token, "setrm") {
        Some(Mnemonic::SetRm)
    } else if spells(token, "setrc") {
        Some(Mnemonic::SetRc)
    } else if spells(token, "setpcr") {
        Some(Mnemonic::SetPcr)
    } else if spells(token, "setmr") {
        Some(Mnemonic::SetMr)
    } else if spells(token, "add") {
        Some(Mnemonic::Add)
    } else if spells(token, "sub") {
        Some(Mnemonic::Sub)
    } else if spells(token, "and") {
        Some(Mnemonic::And)
    } else if spells(token, "or") {
        Some(Mnemonic::Or)
    } else if spells(token, "xor") {
        Some(Mnemonic::Xor)
    } else if spells(token, "not") {
        Some(Mnemonic::Not)
    } else {
        None
    }
}

impl Mnemonic {
    /// Number of operands that the mnemonic takes.
    pub fn operand_count(self) -> (count: usize)
        ensures
            count == self.arity(),
            1 <= count <= 2,
    {
        match self {
            Mnemonic::Jump | Mnemonic::SetRpc | Mnemonic::SetPcr | Mnemonic::Not => 1,
            _ => 2,
        }
    }

    /// The instruction that the mnemonic makes of its operands in source
    /// order.
    pub fn to_instruction(self, a: u8, b: u8) -> (instruction: Instruction)
        ensures
            instruction == self.instruction(a, b),
    {
        match self {
            Mnemonic::Jump => Instruction::Jump { target: a },
            Mnemonic::IfEq => Instruction::IfEq { x: a, y: b },
            Mnemonic::IfNeq => Instruction::IfNeq { x: a, y: b },
            Mnemonic::IfLe => Instruction::IfLe { x: a, y: b },
            Mnemonic::SetRr => Instruction::SetRr { x: a, y: b },
            Mnemonic::SetRpc => Instruction::SetRpc { x: a },
            Mnemonic::SetRm => Instruction::SetRm { x: a, addr: b },
            Mnemonic::SetRc => Instruction::SetRc { x: a, value: b },
            Mnemonic::SetPcr => Instruction::SetPcr { x: a },
            Mnemonic::SetMr => Instruction::SetMr { x: b, addr: a },
            Mnemonic::Add => Instruction::Add { x: a, y: b },
            Mnemonic::Sub => Instruction::Sub { x: a, y: b },
            Mnemonic::And => Instruction::And { x: a, y: b },
            Mnemonic::Or => Instruction::Or { x: a, y: b },
            Mnemonic::Xor => Instruction::Xor { x: a, y: b },
            Mnemonic::Not => Instruction::Not { x: a },
        }
    }
}

/// The register that a token names, if it names one.
pub fn register(token: &Vec<char>) -> (index: Option<u8>)
    ensures
        index == register_of(token@),
{
    if token.len() == 2 && token[0] == 'V' {
        match digit_value(token[1]) {
            Some(digit) => if digit < 16 {
                Some(digit)
            } else {
                None
            },
            None => None,
        }
    } else {
        None
    }
}

/// Reads a token that is no label reference as the byte it stands for.
pub fn get_value(token: &Vec<char>) -> (value: Result<u8, AssembleError>)
    ensures
        value == literal(token@),
{
    let hex = ['0', 'x'];
    let binary = ['0', 'b'];
    assert(hex@ =~= seq!['0', 'x']);
    assert(binary@ =~= seq!['0', 'b']);
    if starts_with(token, &hex) {
        let digits = tail(token, 2);
        match parse_number(&digits, 16) {
            Some(value) => Ok(value),
            None => Err(AssembleError::NotHex),
        }
    } else if starts_with(token, &binary) {
        let digits = tail(token, 2);
        match parse_number(&digits, 2) {
            Some(value) => Ok(value),
            None => Err(AssembleError::NotBinary),
        }
    } else {
        match register(token) {
            Some(index) => Ok(index),
            None => match parse_number(token, 10) {
                Some(value) => Ok(value),
                None => Err(AssembleError::NotDecimal),
            },
        }
    }
}

/// Whether a token begins with `@`.
fn is_label_token(token: &Vec<char>) -> (b: bool)
    ensures
        b == is_label(token@),
{
    let marker = ['@'];
    assert(marker@ =~= seq!['@']);
    starts_with(token, &marker)
}

/// The name of a label token.
fn name_of(token: &Vec<char>) -> (name: Vec<char>)
    ensures
        name@ == label_name(token@),
{
    let marker = ['@'];
    assert(marker@ =~= seq!['@']);
    remove_all(token, &marker)
}

/// Reads the token at position `at` as an operand. Where the tokens end
/// before that position, a value was expected and is missing.
pub fn get_label(tokens: &Vec<Vec<char>>, at: usize) -> (label: Result<Label, AssembleError>)
    ensures
        match label {
            Ok(found) => operand_at(token_views(tokens@), at as int) == Ok::<
                LabelView,
                AssembleError,
            >(found@),
            Err(error) => operand_at(token_views(tokens@), at as int) == Err::<
                LabelView,
                AssembleError,
            >(error),
        },
{
    if at >= tokens.len() {
        return Err(AssembleError::ExpectedValue);
    }
    let token = &tokens[at];
    if is_label_token(token) {
        Ok(Label::Name(name_of(token)))
    } else {
        match get_value(token) {
            Ok(value) => Ok(Label::Value(value)),
            Err(error) => Err(error),
        }
    }
}

impl SymbolTable {
    /// A table without definitions.
    pub fn new() -> (table: SymbolTable)
        ensures
            table@ == Seq::<(Seq<char>, LabelView)>::empty(),
    {
        let table = SymbolTable { definitions: Vec::new() };
        assert(table@ =~= Seq::<(Seq<char>, LabelView)>::empty());
        table
    }

    /// Adds a definition after those that are there.
    pub fn define(&mut self, name: Vec<char>, label: Label)
        ensures
            final(self)@ == old(self)@.push((name@, label@)),
    {
        let ghost added = (name@, label@);
        self.definitions.push(Definition { name, label });
        assert(self@ =~= old(self)@.push(added));
    }

    /// What the last definition of `name` binds it to.
    pub fn lookup<'a>(&'a self, name: &Vec<char>) -> (found: Option<&'a Label>)
        ensures
            match found {
                Some(label) => lookup(self@, name@) == Some(label@),
                None => lookup(self@, name@) is None,
            },
    {
        let mut i: usize = self.definitions.len();
        assert(self@.take(i as int) =~= self@);
        while i > 0
            invariant
                i <= self.definitions.len(),
                lookup(self@, name@) == lookup(self@.take(i as int), name@),
            decreases i,
        {
            i -= 1;
            let ghost part = self@.take(i + 1);
            assert(part.last() == self@[i as int]);
            assert(part.drop_last() =~= self@.take(i as int));
            if same_chars(&self.definitions[i].name, name) {
                return Some(&self.definitions[i].label);
            }
        }
        None
    }
}

/// Resolves an operand to its byte: a value is itself, and a name is what
/// its last definition resolves to.
pub fn label_to_u8(label: &Label, labels: &SymbolTable) -> (byte: Result<u8, AssembleError>)
    ensures
        byte == resolve(labels@, label@),
{
    let mut current: &Label = label;
    let mut hops: usize = labels.definitions.len();
    loop
        invariant
            resolve(labels@, label@) == resolve_within(labels@, current@, hops as nat),
        decreases hops,
    {
        match current {
            Label::Value(value) => {
                return Ok(*value);
            },
            Label::Name(name) => match labels.lookup(name) {
                None => {
                    return Err(AssembleError::LabelNotFound);
                },
                Some(bound) => {
                    if hops == 0 {
                        return Err(AssembleError::LabelCycle);
                    }
                    current = bound;
                    hops -= 1;
                },
            },
        }
    }
}

/// Reads the operands of `mnemonic` from the tokens at position `at` on.
fn read_statement(mnemonic: Mnemonic, tokens: &Vec<Vec<char>>, at: usize) -> (statement: Result<
    Statement,
    AssembleError,
>)
    requires
        at <= tokens.len(),
    ensures
        match statement {
            Ok(read) => statement_of(mnemonic, token_views(tokens@).skip(at as int)) == Ok::<
                StatementView,
                AssembleError,
            >(read@) && at + mnemonic.arity() <= tokens.len(),
            Err(error) => statement_of(mnemonic, token_views(tokens@).skip(at as int)) == Err::<
                StatementView,
                AssembleError,
            >(error),
        },
{
    let ghost all = token_views(tokens@);
    let ghost following = all.skip(at as int);
    assert(operand_at(following, 0) == operand_at(all, at as int));
    let first = match get_label(tokens, at) {
        Err(error) => {
            return Err(error);
        },
        Ok(first) => first,
    };
    let mut operands: Vec<Label> = Vec::new();
    let ghost first_view = first@;
    operands.push(first);
    if mnemonic.operand_count() == 1 {
        let statement = Statement { mnemonic, operands };
        assert(statement@.operands =~= seq![first_view]);
        return Ok(statement);
    }
    assert(operand_at(following, 1) == operand_at(all, at + 1));
    let second = match get_label(tokens, at + 1) {
        Err(error) => {
            return Err(error);
        },
        Ok(second) => second,
    };
    let ghost second_view = second@;
    operands.push(second);
    let statement = Statement { mnemonic, operands };
    assert(statement@.operands =~= seq![first_view, second_view]);
    Ok(statement)
}

/// The first pass: reads the tokens of a source into its statements and
/// label definitions.
pub fn parse(tokens: &Vec<Vec<char>>) -> (listing: Result<Listing, AssembleError>)
    ensures
        match listing {
            Ok(read) => parsed(token_views(tokens@)) == Ok::<ListingView, AssembleError>(read@),
            Err(error) => parsed(token_views(tokens@)) == Err::<ListingView, AssembleError>(
                error,
            ),
        },
{
    let ghost all = token_views(tokens@);
    let mut listing = Listing {
        in_comment: false,
        statements: Vec::new(),
        labels: SymbolTable::new(),
    };
    let open = ['/', '*'];
    let close = ['*', '/'];
    let equals = ['='];
    assert(open@ =~= seq!['/', '*']);
    assert(close@ =~= seq!['*', '/']);
    assert(equals@ =~= seq!['=']);
    assert(listing@.statements =~= ListingView::empty().statements);
    assert(all.skip(0) =~= all);
    let mut i: usize = 0;
    while i < tokens.len()
        invariant
            i <= tokens.len(),
            all == token_views(tokens@),
            open@ == seq!['/', '*'],
            close@ == seq!['*', '/'],
            equals@ == seq!['='],
            parsed(all) == parse_from(all.skip(i as int), listing@),
        decreases tokens.len() - i,
    {
        let token = &tokens[i];
        let ghost rest = all.skip(i as int);
        let ghost before = listing@;
        assert(rest[0] == token@);
        assert(rest.skip(1) =~= all.skip(i + 1));
        if starts_with(token, &open) {
            listing.in_comment = true;
            i += 1;
        } else if has_suffix(token, &close) {
            listing.in_comment = false;
            i += 1;
        } else if listing.in_comment {
            i += 1;
        } else if is_label_token(token) {
            let explicit = i + 1 < tokens.len() && {
                let next = &tokens[i + 1];
                assert(rest[1] == next@);
                next.len() == 1 && next[0] == '='
            };
            assert(explicit == (rest.len() >= 2 && is_equals(rest[1]))) by {
                if rest.len() >= 2 {
                    assert(rest[1] == tokens@[i + 1]@);
                    if explicit {
                        assert(rest[1] =~= seq!['=']);
                    }
                }
            }
            if explicit {
                assert(operand_at(rest, 2) == operand_at(all, i + 2));
                let value = match get_label(tokens, i + 2) {
                    Err(error) => {
                        return Err(error);
                    },
                    Ok(value) => value,
                };
                listing.labels.define(name_of(token), value);
                assert(rest.skip(3) =~= all.skip(i + 3));
                i += 3;
            } else {
                let slots = listing.statements.len();
                if slots >= MAX_SLOTS {
                    return Err(AssembleError::SlotOverflow);
                }
                listing.labels.define(name_of(token), Label::Value(slots as u8));
                i += 1;
            }
        } else {
            match mnemonic(token) {
                None => {
                    i += 1;
                },
                Some(found) => {
                    let statement = match read_statement(found, tokens, i + 1) {
                        Err(error) => {
                            return Err(error);
                        },
                        Ok(statement) => statement,
                    };
                    if listing.statements.len() >= MAX_SLOTS {
                        return Err(AssembleError::SlotOverflow);
                    }
                    let ghost added = statement@;
                    listing.statements.push(statement);
                    assert(listing@.statements =~= before.statements.push(added));
                    let count = found.operand_count();
                    assert(rest.skip(1 + count as int) =~= all.skip(i + 1 + count));
                    i += 1 + count;
                },
            }
        }
    }
    Ok(listing)
}

/// Resolves the operands of a statement, the first operand first, and gives
/// the instruction that it stands for.
pub fn resolve_statement(statement: &Statement, labels: &SymbolTable) -> (instruction: Result<
    Instruction,
    AssembleError,
>)
    ensures
        instruction == resolved(statement@, labels@),
{
    if statement.operands.len() == 0 {
        return Err(AssembleError::ExpectedValue);
    }
    let a = match label_to_u8(&statement.operands[0], labels) {
        Err(error) => {
            return Err(error);
        },
        Ok(a) => a,
    };
    if statement.mnemonic.operand_count() == 1 {
        return Ok(statement.mnemonic.to_instruction(a, 0));
    }
    if statement.operands.len() < 2 {
        return Err(AssembleError::ExpectedValue);
    }
    match label_to_u8(&statement.operands[1], labels) {
        Err(error) => Err(error),
        Ok(b) => Ok(statement.mnemonic.to_instruction(a, b)),
    }
}

/// The second pass: resolves and encodes the statements of a listing, two
/// bytes for each in order.
pub fn emit(listing: &Listing) -> (binary: Result<Vec<u8>, AssembleError>)
    ensures
        match binary {
            Ok(bytes) => emitted_bytes(listing@.statements, listing@.definitions) == Ok::<
                Seq<u8>,
                AssembleError,
            >(bytes@),
            Err(error) => emitted_bytes(listing@.statements, listing@.definitions) == Err::<
                Seq<u8>,
                AssembleError,
            >(error),
        },
{
    let ghost statements = listing@.statements;
    let ghost definitions = listing@.definitions;
    let mut binary: Vec<u8> = Vec::new();
    let mut i: usize = 0;
    while i < listing.statements.len()
        invariant
            i <= listing.statements.len(),
            statements == listing@.statements,
            definitions == listing@.definitions,
            emitted_bytes(statements.take(i as int), definitions) == Ok::<Seq<u8>, AssembleError>(
                binary@,
            ),
        decreases listing.statements.len() - i,
    {
        let ghost part = statements.take(i + 1);
        assert(part.drop_last() =~= statements.take(i as int));
        assert(part.last() == listing.statements@[i as int]@);
        let instruction = match resolve_statement(&listing.statements[i], &listing.labels) {
            Err(error) => {
                proof {
                    lemma_emitted_prefix_error(statements, i + 1, definitions);
                }
                return Err(error);
            },
            Ok(instruction) => instruction,
        };
        let (b0, b1) = instruction.encode();
        binary.push(b0);
        binary.push(b1);
        i += 1;
    }
    assert(statements.take(i as int) =~= statements);
    Ok(binary)
}

/// An error among the first statements is the error of the whole: the
/// statements are resolved in order and the first failure ends the pass.
pub proof fn lemma_emitted_prefix_error(
    statements: Seq<StatementView>,
    k: int,
    definitions: Seq<(Seq<char>, LabelView)>,
)
    requires
        0 <= k <= statements.len(),
        emitted_bytes(statements.take(k), definitions) is Err,
    ensures
        emitted_bytes(statements, definitions) == emitted_bytes(statements.take(k), definitions),
    decreases statements.len() - k,
{
    if k == statements.len() {
        assert(statements.take(k) =~= statements);
    } else {
        assert(statements.drop_last().take(k) =~= statements.take(k));
        lemma_emitted_prefix_error(statements.drop_last(), k, definitions);
    }
}

/// Assembles a source given as its tokens.
pub fn assemble_tokens(tokens: &Vec<Vec<char>>) -> (binary: Result<Vec<u8>, AssembleError>)
    ensures
        match binary {
            Ok(bytes) => assembled(token_views(tokens@)) == Ok::<Seq<u8>, AssembleError>(bytes@),
            Err(error) => assembled(token_views(tokens@)) == Err::<Seq<u8>, AssembleError>(error),
        },
{
    match parse(tokens) {
        Err(error) => Err(error),
        Ok(listing) => emit(&listing),
    }
}

/// Assembles a source text into the binary program: two bytes for each
/// instruction, in source order.
pub fn run(source: &str) -> (binary: Result<Vec<u8>, AssembleError>)
    ensures
        match binary {
            Ok(bytes) => assembly(source@) == Ok::<Seq<u8>, AssembleError>(bytes@),
            Err(error) => assembly(source@) == Err::<Seq<u8>, AssembleError>(error),
        },
{
    let text = to_chars(source);
    let tokens = tokenize(&text);
    assemble_tokens(&tokens)
}

/// The tokens `@name = value` of a label definition that binds the name to
/// an operand.
pub open spec fn is_definition(tokens: Seq<Seq<char>>) -> bool {
    &&& tokens.len() == 3
    &&& is_label(tokens[0])
    &&& !closes_comment(tokens[0])
    &&& is_equals(tokens[1])
    &&& operand(tokens[2]) is Ok
}

/// The tokens of one instruction: a mnemonic and as many operands as it
/// takes, each of them readable.
pub open spec fn is_instruction(tokens: Seq<Seq<char>>) -> bool {
    &&& tokens.len() >= 1
    &&& mnemonic_of(tokens[0]) matches Some(mnemonic)
    &&& tokens.len() == 1 + mnemonic.arity()
    &&& forall|i: int| 1 <= i < tokens.len() ==> (#[trigger] operand(tokens[i])) is Ok
}

/// A mnemonic is a plain word: it neither opens nor closes a comment, is no
/// label and is not `=`.
pub proof fn lemma_mnemonic_is_plain(token: Seq<char>)
    requires
        mnemonic_of(token) is Some,
    ensures
        !opens_comment(token),
        !closes_comment(token),
        !is_label(token),
        !is_equals(token),
{
    reveal_strlit("jump");
    reveal_strlit("ifeq");
    reveal_strlit("ifneq");
    reveal_strlit("ifle");
    reveal_strlit("setrr");
    reveal_strlit("setrpc");
    reveal_strlit("setrm");
    reveal_strlit("setrc");
    reveal_strlit("setpcr");
    reveal_strlit("setmr");
    reveal_strlit("add");
    reveal_strlit("sub");
    reveal_strlit("and");
    reveal_strlit("or");
    reveal_strlit("xor");
    reveal_strlit("not");
    let n = token.len() as int;
    assert(2 <= n <= 6);
    assert(token[0] != '/' && token[0] != '@');
    assert(token[n - 1] != '/');
    if opens_comment(token) {
        assert(token.take(2)[0] == token[0]);
    }
    if closes_comment(token) {
        assert(token.skip(n - 2)[1] == token[n - 1]);
    }
    if is_label(token) {
        assert(token.take(1)[0] == token[0]);
    }
}

/// A label token is no comment opener and is not `=`.
pub proof fn lemma_label_is_no_opener(token: Seq<char>)
    requires
        is_label(token),
    ensures
        !opens_comment(token),
        !is_equals(token),
{
    assert(token.take(1)[0] == token[0]);
    if opens_comment(token) {
        assert(token.take(2)[0] == token[0]);
    }
}

/// The first item of a source is read alike whatever follows the source,
/// as long as what follows does not begin with `=`, which would turn a
/// label at the end into a definition with a value; an item that defines
/// nothing is no label, and anything may follow it.
pub proof fn lemma_item_prefix(first: Seq<Seq<char>>, rest: Seq<Seq<char>>, listing: ListingView)
    requires
        first.len() > 0,
        read_item(first, listing) is Ok,
        rest.len() == 0 || !is_equals(rest[0]) || read_item(
            first,
            listing,
        )->Ok_0.1.definitions.len() == listing.definitions.len(),
    ensures
        read_item(first + rest, listing) == read_item(first, listing),
{
    let whole = first + rest;
    let token = first[0];
    assert(whole[0] == token);
    if opens_comment(token) || closes_comment(token) || listing.in_comment {
    } else if is_label(token) {
        if first.len() >= 2 {
            assert(whole[1] == first[1]);
            if is_equals(first[1]) {
                assert(whole[2] == first[2]);
            }
        } else if rest.len() > 0 {
            assert(whole[1] == rest[0]);
        }
    } else {
        match mnemonic_of(token) {
            None => {},
            Some(mnemonic) => {
                assert(whole.skip(1)[0] == first.skip(1)[0]);
                if mnemonic.arity() == 2 {
                    assert(whole.skip(1)[1] == first.skip(1)[1]);
                }
            },
        }
    }
}

/// The first pass only adds: the statements and definitions that a listing
/// holds are still there, in their places, after more tokens have been
/// read.
pub proof fn lemma_parse_grows(tokens: Seq<Seq<char>>, listing: ListingView)
    requires
        parse_from(tokens, listing) is Ok,
    ensures
        ({
            let read = parse_from(tokens, listing)->Ok_0;
            &&& listing.statements.len() <= read.statements.len()
            &&& read.statements.take(listing.statements.len() as int) == listing.statements
            &&& listing.definitions.len() <= read.definitions.len()
            &&& read.definitions.take(listing.definitions.len() as int) == listing.definitions
        }),
    decreases tokens.len(),
{
    let read = parse_from(tokens, listing)->Ok_0;
    if tokens.len() == 0 {
        assert(read.statements.take(listing.statements.len() as int) =~= listing.statements);
        assert(read.definitions.take(listing.definitions.len() as int) =~= listing.definitions);
    } else {
        lemma_item_size(tokens, listing);
        let (taken, next) = read_item(tokens, listing)->Ok_0;
        lemma_parse_grows(tokens.skip(taken as int), next);
        assert(next.statements.take(listing.statements.len() as int) =~= listing.statements);
        assert(next.definitions.take(listing.definitions.len() as int) =~= listing.definitions);
        assert(read.statements.take(listing.statements.len() as int) =~= read.statements.take(
            next.statements.len() as int,
        ).take(listing.statements.len() as int));
        assert(read.definitions.take(listing.definitions.len() as int) =~= read.definitions.take(
            next.definitions.len() as int,
        ).take(listing.definitions.len() as int));
    }
}

/// The first pass reads a source piece by piece: where a first part is read
/// without error, reading the whole is reading the rest from the listing
/// that the first part left. The rest must not begin with `=`, which would
/// turn a label at the end of the first part into a definition with a
/// value; after a first part that defines no label anything may follow.
pub proof fn lemma_parse_prefix(first: Seq<Seq<char>>, rest: Seq<Seq<char>>, listing: ListingView)
    requires
        parse_from(first, listing) is Ok,
        rest.len() == 0 || !is_equals(rest[0]) || parse_from(
            first,
            listing,
        )->Ok_0.definitions.len() == listing.definitions.len(),
    ensures
        parse_from(first + rest, listing) == parse_from(rest, parse_from(first, listing)->Ok_0),
    decreases first.len(),
{
    if first.len() == 0 {
        assert(first + rest =~= rest);
    } else {
        lemma_item_size(first, listing);
        let (taken, next) = read_item(first, listing)->Ok_0;
        lemma_parse_grows(first.skip(taken as int), next);
        lemma_item_prefix(first, rest, listing);
        assert((first + rest).skip(taken as int) =~= first.skip(taken as int) + rest);
        lemma_parse_prefix(first.skip(taken as int), rest, next);
    }
}

/// The listing `listing` with its definitions from index `from` on put
/// behind the definitions `onto`.
pub open spec fn rebased(
    listing: ListingView,
    from: nat,
    onto: Seq<(Seq<char>, LabelView)>,
) -> ListingView {
    ListingView { definitions: onto + listing.definitions.skip(from as int), ..listing }
}

/// What the first pass reads does not depend on the definitions it starts
/// from: from other definitions it fails alike, or reads the same statements
/// and adds the same definitions behind those it was given.
pub proof fn lemma_parse_rebased(
    tokens: Seq<Seq<char>>,
    listing: ListingView,
    onto: Seq<(Seq<char>, LabelView)>,
)
    ensures
        parse_from(tokens, ListingView { definitions: onto, ..listing }) == (match parse_from(
            tokens,
            listing,
        ) {
            Ok(read) => Ok(rebased(read, listing.definitions.len(), onto)),
            Err(error) => Err(error),
        }),
    decreases tokens.len(),
{
    let moved = ListingView { definitions: onto, ..listing };
    let count = listing.definitions.len();
    if tokens.len() == 0 {
        assert(onto + listing.definitions.skip(count as int) =~= onto);
    } else {
        match read_item(tokens, listing) {
            Err(error) => {
                assert(read_item(tokens, moved) == Err::<(nat, ListingView), AssembleError>(
                    error,
                ));
            },
            Ok((taken, next)) => {
                lemma_item_size(tokens, listing);
                let added = next.definitions.skip(count as int);
                let next_moved = ListingView { definitions: onto + added, ..next };
                assert(next.definitions.len() == count ==> onto + added =~= onto);
                assert(next.definitions.len() == count + 1 ==> onto + added =~= onto.push(
                    next.definitions[count as int],
                ));
                assert(read_item(tokens, moved) == Ok::<(nat, ListingView), AssembleError>(
                    (taken, next_moved),
                ));
                lemma_parse_rebased(tokens.skip(taken as int), next, onto + added);
                match parse_from(tokens.skip(taken as int), next) {
                    Err(_) => {},
                    Ok(read) => {
                        lemma_parse_grows(tokens.skip(taken as int), next);
                        assert(read.definitions.take(next.definitions.len() as int)
                            == next.definitions);
                        assert((onto + added) + read.definitions.skip(
                            next.definitions.len() as int,
                        ) =~= onto + read.definitions.skip(count as int)) by {
                            if next.definitions.len() == count + 1 {
                                assert(read.definitions[count as int] == read.definitions.take(
                                    next.definitions.len() as int,
                                )[count as int]);
                            }
                        }
                    },
                }
            },
        }
    }
}

/// What the first pass makes of a definition `@name = value` that stands
/// outside a comment: it binds the name and goes on with what follows.
pub proof fn lemma_parse_definition(
    definition: Seq<Seq<char>>,
    rest: Seq<Seq<char>>,
    listing: ListingView,
)
    requires
        is_definition(definition),
        !listing.in_comment,
    ensures
        parse_from(definition + rest, listing) == parse_from(
            rest,
            ListingView {
                definitions: listing.definitions.push(
                    (label_name(definition[0]), operand(definition[2])->Ok_0),
                ),
                ..listing
            },
        ),
{
    let whole = definition + rest;
    lemma_label_is_no_opener(definition[0]);
    assert(whole[0] == definition[0]);
    assert(whole[1] == definition[1]);
    assert(whole[2] == definition[2]);
    assert(whole.skip(3) =~= rest);
}

/// What the first pass makes of an instruction that stands outside a
/// comment: it adds the statement on the next slot, if there is one left,
/// and goes on with what follows.
pub proof fn lemma_parse_instruction(
    instruction: Seq<Seq<char>>,
    rest: Seq<Seq<char>>,
    listing: ListingView,
)
    requires
        is_instruction(instruction),
        !listing.in_comment,
    ensures
        statement_of(mnemonic_of(instruction[0])->0, instruction.skip(1)) is Ok,
        parse_from(instruction + rest, listing) == (if listing.statements.len() >= MAX_SLOTS {
            Err(AssembleError::SlotOverflow)
        } else {
            parse_from(
                rest,
                ListingView {
                    statements: listing.statements.push(
                        statement_of(mnemonic_of(instruction[0])->0, instruction.skip(1))->Ok_0,
                    ),
                    ..listing
                },
            )
        }),
{
    let whole = instruction + rest;
    let mnemonic = mnemonic_of(instruction[0])->0;
    let count = mnemonic.arity() as int;
    lemma_mnemonic_is_plain(instruction[0]);
    assert(whole[0] == instruction[0]);
    assert(operand(instruction[1]) is Ok);
    assert(instruction.skip(1)[0] == instruction[1]);
    assert(whole.skip(1)[0] == instruction[1]);
    if count == 2 {
        assert(operand(instruction[2]) is Ok);
        assert(instruction.skip(1)[1] == instruction[2]);
        assert(whole.skip(1)[1] == instruction[2]);
    }
    assert(statement_of(mnemonic, whole.skip(1)) == statement_of(mnemonic, instruction.skip(1)));
    assert(whole.skip(1 + count) =~= rest);
}

/// Label resolution does not depend on order: a source in which a label
/// definition `@name = value` stands just before an instruction assembles
/// to the same result, bytes or error, as the source with the two
/// exchanged. So a reference that looks back at its definition and one that
/// looks forward to it resolve alike.
pub proof fn lemma_reference_order(
    before: Seq<Seq<char>>,
    definition: Seq<Seq<char>>,
    instruction: Seq<Seq<char>>,
    after: Seq<Seq<char>>,
)
    requires
        parsed(before) matches Ok(listing) && !listing.in_comment,
        is_definition(definition),
        is_instruction(instruction),
    ensures
        assembled(before + definition + instruction + after) == assembled(
            before + instruction + definition + after,
        ),
{
    let listing = parsed(before)->Ok_0;
    let backward = before + definition + instruction + after;
    let forward = before + instruction + definition + after;
    lemma_label_is_no_opener(definition[0]);
    lemma_mnemonic_is_plain(instruction[0]);
    assert(backward =~= before + (definition + (instruction + after)));
    assert(forward =~= before + (instruction + (definition + after)));
    assert((definition + (instruction + after))[0] == definition[0]);
    assert((instruction + (definition + after))[0] == instruction[0]);
    lemma_parse_prefix(before, definition + (instruction + after), ListingView::empty());
    lemma_parse_prefix(before, instruction + (definition + after), ListingView::empty());
    let bound = ListingView {
        definitions: listing.definitions.push(
            (label_name(definition[0]), operand(definition[2])->Ok_0),
        ),
        ..listing
    };
    lemma_parse_definition(definition, instruction + after, listing);
    lemma_parse_instruction(instruction, after, bound);
    lemma_parse_instruction(instruction, definition + after, listing);
    if listing.statements.len() < MAX_SLOTS {
        let added = ListingView {
            statements: listing.statements.push(
                statement_of(mnemonic_of(instruction[0])->0, instruction.skip(1))->Ok_0,
            ),
            ..listing
        };
        lemma_parse_definition(definition, after, added);
    }
    assert(parsed(backward) == parsed(forward));
}

/// A program whose references look forward runs as the program whose
/// references look back: the two sources of `lemma_reference_order`, where
/// they assemble, give binaries that from the initial state reach the same
/// registers, memory and program counter, stop for the same reason and emit
/// the same output, whatever the step limit.
pub proof fn lemma_reference_order_same_run(
    before: Seq<Seq<char>>,
    definition: Seq<Seq<char>>,
    instruction: Seq<Seq<char>>,
    after: Seq<Seq<char>>,
    limit: nat,
)
    requires
        parsed(before) matches Ok(listing) && !listing.in_comment,
        is_definition(definition),
        is_instruction(instruction),
        assembled(before + definition + instruction + after) is Ok,
    ensures
        assembled(before + instruction + definition + after) is Ok,
        run_of(
            MachineState::initial(),
            assembled(before + definition + instruction + after)->Ok_0,
            limit,
        ) == run_of(
            MachineState::initial(),
            assembled(before + instruction + definition + after)->Ok_0,
            limit,
        ),
{
    lemma_reference_order(before, definition, instruction, after);
}

/// A label that stands alone names the next slot: after a first part with
/// `k` statements, at most 255, the label is bound to `k`, whatever comes
/// before or after it. What follows must not begin with `=`.
pub proof fn lemma_label_names_next_slot(
    before: Seq<Seq<char>>,
    label: Seq<char>,
    after: Seq<Seq<char>>,
)
    requires
        parsed(before) matches Ok(listing) && !listing.in_comment && listing.statements.len()
            < MAX_SLOTS,
        is_label(label),
        !closes_comment(label),
        after.len() == 0 || !is_equals(after[0]),
    ensures
        parsed(before + seq![label] + after) == parse_from(
            after,
            ListingView {
                definitions: parsed(before)->Ok_0.definitions.push(
                    (
                        label_name(label),
                        LabelView::Value(parsed(before)->Ok_0.statements.len() as u8),
                    ),
                ),
                ..parsed(before)->Ok_0
            },
        ),
{
    let rest = seq![label] + after;
    lemma_label_is_no_opener(label);
    assert(before + seq![label] + after =~= before + rest);
    assert(rest[0] == label);
    lemma_parse_prefix(before, rest, ListingView::empty());
    assert(rest.skip(1) =~= after);
    if after.len() > 0 {
        assert(rest[1] == after[0]);
    }
}

/// A reference resolves by its name alone: two operands that name the same
/// label stand for the same byte, wherever their statements are.
pub proof fn lemma_resolution_ignores_position(
    listing: ListingView,
    i: int,
    p: int,
    j: int,
    q: int,
)
    requires
        0 <= i < listing.statements.len(),
        0 <= j < listing.statements.len(),
        0 <= p < listing.statements[i].operands.len(),
        0 <= q < listing.statements[j].operands.len(),
        listing.statements[i].operands[p] == listing.statements[j].operands[q],
    ensures
        resolved_operand(listing.statements[i], listing.definitions, p) == resolved_operand(
            listing.statements[j],
            listing.definitions,
            q,
        ),
{
}

/// Statement `i` of a listing lands on slot `i` of the binary: the program
/// has two bytes for each statement, and those of slot `i` encode the
/// instruction that statement `i` resolves to.
pub proof fn lemma_statement_slot(
    statements: Seq<StatementView>,
    definitions: Seq<(Seq<char>, LabelView)>,
    i: int,
)
    requires
        emitted_bytes(statements, definitions) is Ok,
        0 <= i < statements.len(),
    ensures
        emitted_bytes(statements, definitions)->Ok_0.len() == 2 * statements.len(),
        resolved(statements[i], definitions) is Ok,
        fetched(emitted_bytes(statements, definitions)->Ok_0, i as nat) == resolved(
            statements[i],
            definitions,
        )->Ok_0.encoding(),
    decreases statements.len(),
{
    lemma_emitted_length(statements, definitions);
    lemma_emitted_length(statements.drop_last(), definitions);
    if i < statements.len() - 1 {
        lemma_statement_slot(statements.drop_last(), definitions, i);
    }
}

/// A binary has two bytes for each statement.
pub proof fn lemma_emitted_length(
    statements: Seq<StatementView>,
    definitions: Seq<(Seq<char>, LabelView)>,
)
    ensures
        emitted_bytes(statements, definitions) matches Ok(bytes) ==> bytes.len() == 2
            * statements.len(),
    decreases statements.len(),
{
    if statements.len() > 0 {
        lemma_emitted_length(statements.drop_last(), definitions);
    }
}

/// The emulator reads back what the assembler wrote: where statement `i`
/// resolves to an instruction whose register indices are below sixteen, a
/// machine whose program counter is at slot `i` of the binary is about to
/// execute that instruction.
pub proof fn lemma_assembled_slot_decodes(
    statements: Seq<StatementView>,
    definitions: Seq<(Seq<char>, LabelView)>,
    i: int,
    state: MachineState,
)
    requires
        emitted_bytes(statements, definitions) is Ok,
        0 <= i < statements.len(),
        resolved(statements[i], definitions) matches Ok(instruction) && instruction.well_formed(),
        state.pc == i,
    ensures
        current_instruction(state, emitted_bytes(statements, definitions)->Ok_0) == Some(
            resolved(statements[i], definitions)->Ok_0,
        ),
{
    lemma_statement_slot(statements, definitions, i);
    lemma_decode_encode(resolved(statements[i], definitions)->Ok_0);
}

/// More hops never change an answer: a label that resolves to a byte, or
/// leads to an undefined name, within `hops` definitions does the same
/// within any larger number. Only the report of a circle depends on the
/// bound.
pub proof fn lemma_resolve_more_hops(
    definitions: Seq<(Seq<char>, LabelView)>,
    label: LabelView,
    hops: nat,
    more: nat,
)
    requires
        hops <= more,
        resolve_within(definitions, label, hops) != Err::<u8, AssembleError>(
            AssembleError::LabelCycle,
        ),
    ensures
        resolve_within(definitions, label, more) == resolve_within(definitions, label, hops),
    decreases hops,
{
    match label {
        LabelView::Value(_) => {},
        LabelView::Name(name) => match lookup(definitions, name) {
            None => {},
            Some(bound) => {
                lemma_resolve_more_hops(
                    definitions,
                    bound,
                    (hops - 1) as nat,
                    (more - 1) as nat,
                );
            },
        },
    }
}

/// Whether every operand of `statements` stands for the same byte, or fails
/// alike, under two sets of definitions.
pub open spec fn same_bindings(
    statements: Seq<StatementView>,
    first: Seq<(Seq<char>, LabelView)>,
    second: Seq<(Seq<char>, LabelView)>,
) -> bool {
    forall|i: int, p: int|
        0 <= i < statements.len() && 0 <= p < statements[i].operands.len() ==> resolve(
            first,
            #[trigger] statements[i].operands[p],
        ) == resolve(second, statements[i].operands[p])
}

/// The binary depends on the definitions only through what the operands
/// stand for: statements that resolve alike under two sets of definitions
/// give the same bytes, or the same error.
pub proof fn lemma_same_bindings_same_binary(
    statements: Seq<StatementView>,
    first: Seq<(Seq<char>, LabelView)>,
    second: Seq<(Seq<char>, LabelView)>,
)
    requires
        same_bindings(statements, first, second),
    ensures
        emitted_bytes(statements, first) == emitted_bytes(statements, second),
    decreases statements.len(),
{
    if statements.len() > 0 {
        let last = statements.last();
        let earlier = statements.drop_last();
        assert(same_bindings(earlier, first, second)) by {
            assert forall|i: int, p: int|
                0 <= i < earlier.len() && 0 <= p < earlier[i].operands.len() implies resolve(
                first,
                #[trigger] earlier[i].operands[p],
            ) == resolve(second, earlier[i].operands[p]) by {
                assert(earlier[i] == statements[i]);
                assert(resolve(first, statements[i].operands[p]) == resolve(
                    second,
                    statements[i].operands[p],
                ));
            }
        }
        lemma_same_bindings_same_binary(earlier, first, second);
        let k = statements.len() - 1;
        assert(last == statements[k]);
        if 0 < last.operands.len() {
            assert(resolve(first, statements[k].operands[0]) == resolve(
                second,
                statements[k].operands[0],
            ));
        }
        if 1 < last.operands.len() {
            assert(resolve(first, statements[k].operands[1]) == resolve(
                second,
                statements[k].operands[1],
            ));
        }
        assert(resolved(last, first) == resolved(last, second));
    }
}

/// A name bound to a byte stands for that byte: where the last definition
/// of `name` binds it to `value`, a reference to `name` resolves to `value`,
/// wherever the reference and the definition stand.
pub proof fn lemma_bound_label_resolves(
    definitions: Seq<(Seq<char>, LabelView)>,
    name: Seq<char>,
    value: u8,
)
    requires
        lookup(definitions, name) == Some(LabelView::Value(value)),
    ensures
        resolve(definitions, LabelView::Name(name)) == Ok::<u8, AssembleError>(value),
{
    assert(definitions.len() > 0);
    assert(resolve_within(definitions, LabelView::Value(value), (definitions.len() - 1) as nat)
        == Ok::<u8, AssembleError>(value));
}

/// Label resolution does not depend on where the definitions stand: two
/// sources that hold the same instructions in the same order, and in which
/// every operand stands for the same byte, assemble to the same result,
/// whether a definition comes before the references to it, after them, or
/// between them.
pub proof fn lemma_placement_of_definitions(first: Seq<Seq<char>>, second: Seq<Seq<char>>)
    requires
        parsed(first) is Ok,
        parsed(second) is Ok,
        parsed(first)->Ok_0.statements == parsed(second)->Ok_0.statements,
        same_bindings(
            parsed(first)->Ok_0.statements,
            parsed(first)->Ok_0.definitions,
            parsed(second)->Ok_0.definitions,
        ),
    ensures
        assembled(first) == assembled(second),
{
    lemma_same_bindings_same_binary(
        parsed(first)->Ok_0.statements,
        parsed(first)->Ok_0.definitions,
        parsed(second)->Ok_0.definitions,
    );
}

/// A definition may stand anywhere among tokens that define nothing: a
/// source in which `@name = value` stands before a stretch of instructions,
/// comments and other tokens that bind no label assembles to the same
/// result, bytes or error, as the source in which it stands after that
/// stretch. So every reference in the stretch resolves alike, whether it
/// looks back at the definition or forward to it.
pub proof fn lemma_definition_moves_across(
    before: Seq<Seq<char>>,
    definition: Seq<Seq<char>>,
    stretch: Seq<Seq<char>>,
    after: Seq<Seq<char>>,
)
    requires
        parsed(before) matches Ok(listing) && !listing.in_comment,
        is_definition(definition),
        stretch.len() == 0 || !is_equals(stretch[0]),
        parse_from(stretch, parsed(before)->Ok_0) matches Ok(read) && !read.in_comment
            && read.definitions.len() == parsed(before)->Ok_0.definitions.len(),
    ensures
        parsed(before + definition + stretch + after) == parsed(
            before + stretch + definition + after,
        ),
        assembled(before + definition + stretch + after) == assembled(
            before + stretch + definition + after,
        ),
{
    let listing = parsed(before)->Ok_0;
    let read = parse_from(stretch, listing)->Ok_0;
    let entry = (label_name(definition[0]), operand(definition[2])->Ok_0);
    let backward = before + definition + stretch + after;
    let forward = before + stretch + definition + after;
    lemma_label_is_no_opener(definition[0]);
    assert(backward =~= before + (definition + (stretch + after)));
    assert(forward =~= before + (stretch + (definition + after)));
    assert((definition + (stretch + after))[0] == definition[0]);
    if stretch.len() > 0 {
        assert((stretch + (definition + after))[0] == stretch[0]);
    } else {
        assert((stretch + (definition + after))[0] == definition[0]);
    }
    assert((definition + after)[0] == definition[0]);

    // The definition first, then the stretch.
    let bound = ListingView { definitions: listing.definitions.push(entry), ..listing };
    lemma_parse_prefix(before, definition + (stretch + after), ListingView::empty());
    lemma_parse_definition(definition, stretch + after, listing);
    lemma_parse_rebased(stretch, listing, bound.definitions);
    let read_bound = rebased(read, listing.definitions.len(), bound.definitions);
    assert(read.definitions.skip(listing.definitions.len() as int) =~= Seq::<
        (Seq<char>, LabelView),
    >::empty());
    assert(read_bound.definitions =~= bound.definitions);
    assert(parse_from(stretch, bound) == Ok::<ListingView, AssembleError>(read_bound));
    lemma_parse_prefix(stretch, after, bound);

    // The stretch first, then the definition.
    lemma_parse_prefix(before, stretch + (definition + after), ListingView::empty());
    lemma_parse_prefix(stretch, definition + after, listing);
    lemma_parse_definition(definition, after, read);
    lemma_parse_grows(stretch, listing);
    assert(read.definitions =~= listing.definitions);
    assert(parsed(backward) == parsed(forward));
}

/// A definition is kept wherever it stands: after a first part that leaves
/// `k` definitions, `@name = value` is definition `k` of the whole source,
/// whatever follows it, and the first part's statements stay on their slots.
/// So references that come before the definition find it in the table.
pub proof fn lemma_definition_is_kept(
    before: Seq<Seq<char>>,
    definition: Seq<Seq<char>>,
    after: Seq<Seq<char>>,
)
    requires
        parsed(before) matches Ok(listing) && !listing.in_comment,
        is_definition(definition),
        parsed(before + definition + after) is Ok,
    ensures
        ({
            let first = parsed(before)->Ok_0;
            let whole = parsed(before + definition + after)->Ok_0;
            &&& first.definitions.len() < whole.definitions.len()
            &&& whole.definitions[first.definitions.len() as int] == (
                label_name(definition[0]),
                operand(definition[2])->Ok_0,
            )
            &&& whole.definitions.take(first.definitions.len() as int) == first.definitions
            &&& whole.statements.take(first.statements.len() as int) == first.statements
        }),
{
    let first = parsed(before)->Ok_0;
    let entry = (label_name(definition[0]), operand(definition[2])->Ok_0);
    let bound = ListingView { definitions: first.definitions.push(entry), ..first };
    let whole = parsed(before + definition + after)->Ok_0;
    lemma_label_is_no_opener(definition[0]);
    assert(before + definition + after =~= before + (definition + after));
    assert((definition + after)[0] == definition[0]);
    lemma_parse_prefix(before, definition + after, ListingView::empty());
    lemma_parse_definition(definition, after, first);
    lemma_parse_grows(after, bound);
    let k = first.definitions.len() as int;
    assert(whole.definitions[k] == whole.definitions.take(k + 1)[k]);
    assert(whole.definitions.take(k) =~= whole.definitions.take(k + 1).take(k));
    assert(bound.definitions.take(k) =~= first.definitions);
}

} // verus!
