//! The Bril program representation, the instruction queries the passes are
//! built on, and basic-block construction.
use std::collections::HashSet;
use vstd::prelude::*;
use vstd::string::*;

verus! {

/// A Bril type: a primitive such as `int`, or a pointer to a type.
pub enum Type {
    Primitive(String),
    Pointer { ptr: String },
}

/// The mathematical form of a `Type`: its variant and the text it holds.
pub enum TypeModel {
    Primitive(Seq<char>),
    Pointer(Seq<char>),
}

impl View for Type {
    type V = TypeModel;

    open spec fn view(&self) -> TypeModel {
        match self {
            Type::Primitive(s) => TypeModel::Primitive(s@),
            Type::Pointer { ptr } => TypeModel::Pointer(ptr@),
        }
    }
}

impl Clone for Type {
    fn clone(&self) -> (r: Self)
        ensures
            r@ == self@,
    {
        match self {
            Type::Primitive(s) => Type::Primitive(s.clone()),
            Type::Pointer { ptr } => Type::Pointer { ptr: ptr.clone() },
        }
    }
}

impl Type {
    /// The text of the type as Bril writes it.
    pub open spec fn spec_to_string(&self) -> Seq<char> {
        match self {
            Type::Primitive(s) => s@,
            Type::Pointer { ptr } => seq!['p', 't', 'r', '<'] + ptr@ + seq!['>'],
        }
    }

    /// `int` stays `int`; a pointer to `int` reads `ptr<int>`.
    pub fn to_string(&self) -> (s: String)
        ensures
            s@ == self.spec_to_string(),
    {
        match self {
            Type::Primitive(s) => s.clone(),
            Type::Pointer { ptr } => {
                let mut s = String::from_str("ptr<");
                s.append(ptr.as_str());
                s.append(">");
                proof {
                    reveal_strlit("ptr<");
                    reveal_strlit(">");
                }
                assert(s@ =~= self.spec_to_string());
                s
            },
        }
    }
}

/// A function parameter.
pub struct Argument {
    pub name: String,
    pub arg_type: Type,
}

/// The value of a `const` instruction.
///
/// Numbers keep the form they were written in: `Int` for those that fit an
/// `i64`, `Unsigned` for larger non-negative integers, `Float` for the bit
/// pattern of a floating-point number. Any other JSON value is kept verbatim
/// as `Text`. `FloatAdd` and `FloatMul` are folded floating-point results,
/// kept as the exact operation to perform: `FloatAdd(a, b)` is `a + b`
/// evaluated in IEEE double precision.
pub enum Literal {
    Int(i64),
    Unsigned(u64),
    Float(u64),
    Text(String),
    FloatAdd(Box<Literal>, Box<Literal>),
    FloatMul(Box<Literal>, Box<Literal>),
}

/// The mathematical form of a `Literal`, with text as character sequences.
pub enum LitModel {
    Int(i64),
    Unsigned(u64),
    Float(u64),
    Text(Seq<char>),
    FloatAdd(Box<LitModel>, Box<LitModel>),
    FloatMul(Box<LitModel>, Box<LitModel>),
}

impl View for Literal {
    type V = LitModel;

    open spec fn view(&self) -> LitModel
        decreases self,
    {
        match self {
            Literal::Int(i) => LitModel::Int(*i),
            Literal::Unsigned(u) => LitModel::Unsigned(*u),
            Literal::Float(f) => LitModel::Float(*f),
            Literal::Text(t) => LitModel::Text(t@),
            Literal::FloatAdd(a, b) => LitModel::FloatAdd(Box::new((**a).view()), Box::new((**b).view())),
            Literal::FloatMul(a, b) => LitModel::FloatMul(Box::new((**a).view()), Box::new((**b).view())),
        }
    }
}

impl Clone for Literal {
    fn clone(&self) -> (r: Self)
        ensures
            r@ == self@,
        decreases self,
    {
        match self {
            Literal::Int(i) => Literal::Int(*i),
            Literal::Unsigned(u) => Literal::Unsigned(*u),
            Literal::Float(f) => Literal::Float(*f),
            Literal::Text(t) => Literal::Text(t.clone()),
            Literal::FloatAdd(a, b) => {
                let a2 = (**a).clone();
                let b2 = (**b).clone();
                Literal::FloatAdd(Box::new(a2), Box::new(b2))
            },
            Literal::FloatMul(a, b) => {
                let a2 = (**a).clone();
                let b2 = (**b).clone();
                Literal::FloatMul(Box::new(a2), Box::new(b2))
            },
        }
    }
}

impl Literal {
    /// Whether the value is a number (as JSON numbers go).
    pub open spec fn spec_is_number(&self) -> bool {
        !(self is Text)
    }


    pub fn is_number(&self) -> (r: bool)
        ensures
            r == self.spec_is_number(),
    {
        match self {
            Literal::Text(_) => false,
            _ => true,
        }
    }

    /// Structural equality of two values.
    pub fn same_as(&self, other: &Literal) -> (r: bool)
        ensures
            r == (self@ == other@),
        decreases self,
    {
        match self {
            Literal::Int(a) => {
                if let Literal::Int(b) = other {
                    return *a == *b;
                }
                false
            },
            Literal::Unsigned(a) => {
                if let Literal::Unsigned(b) = other {
                    return *a == *b;
                }
                false
            },
            Literal::Float(a) => {
                if let Literal::Float(b) = other {
                    return *a == *b;
                }
                false
            },
            Literal::Text(a) => {
                if let Literal::Text(b) = other {
                    return *a == *b;
                }
                false
            },
            Literal::FloatAdd(a1, b1) => match other {
                Literal::FloatAdd(a2, b2) => {
                    let x = (**a1).same_as(&**a2);
                    let y = (**b1).same_as(&**b2);
                    x && y
                },
                _ => false,
            },
            Literal::FloatMul(a1, b1) => match other {
                Literal::FloatMul(a2, b2) => {
                    let x = (**a1).same_as(&**a2);
                    let y = (**b1).same_as(&**b2);
                    x && y
                },
                _ => false,
            },
        }
    }
}

/// The texts of a list of names.
pub open spec fn names(v: Vec<String>) -> Seq<Seq<char>> {
    v@.map_values(|s: String| s@)
}

pub open spec fn opt_names(v: Option<Vec<String>>) -> Option<Seq<Seq<char>>> {
    match v {
        Some(v) => Some(names(v)),
        None => None,
    }
}

pub open spec fn opt_name(s: Option<String>) -> Option<Seq<char>> {
    match s {
        Some(s) => Some(s@),
        None => None,
    }
}

pub open spec fn opt_type(t: Option<Type>) -> Option<TypeModel> {
    match t {
        Some(t) => Some(t@),
        None => None,
    }
}

/// Copies a list of names.
pub fn clone_names(v: &Vec<String>) -> (r: Vec<String>)
    ensures
        names(r) == names(*v),
{
    let mut r: Vec<String> = Vec::new();
    let mut i: usize = 0;
    while i < v.len()
        invariant
            i <= v.len(),
            r@.len() == i,
            forall|k: int| 0 <= k < i ==> #[trigger] r@[k]@ == v@[k]@,
        decreases v.len() - i,
    {
        let s = v[i].clone();
        r.push(s);
        i += 1;
    }
    assert(names(r) =~= names(*v));
    r
}

/// Appends copies of the names in `extra` to `v`.
pub fn append_names(v: &mut Vec<String>, extra: &Vec<String>)
    ensures
        names(*final(v)) == names(*old(v)) + names(*extra),
{
    let ghost start = v@;
    let mut i: usize = 0;
    while i < extra.len()
        invariant
            i <= extra.len(),
            v@.len() == start.len() + i,
            forall|k: int| 0 <= k < start.len() ==> #[trigger] v@[k] == start[k],
            forall|k: int| 0 <= k < i ==> #[trigger] v@[start.len() + k]@ == extra@[k]@,
        decreases extra.len() - i,
    {
        let s = extra[i].clone();
        v.push(s);
        i += 1;
    }
    assert(names(*v) =~= names(*old(v)) + names(*extra)) by {
        assert forall|k: int| 0 <= k < v@.len() implies #[trigger] names(*v)[k] == (names(*old(v)) + names(*extra))[k] by {
            if k >= start.len() {
                assert(v@[start.len() + (k - start.len())]@ == extra@[k - start.len()]@);
            }
        }
    }
}

pub fn clone_opt_names(v: &Option<Vec<String>>) -> (r: Option<Vec<String>>)
    ensures
        opt_names(r) == opt_names(*v),
{
    match v {
        Some(v) => Some(clone_names(v)),
        None => None,
    }
}

pub fn clone_opt_name(s: &Option<String>) -> (r: Option<String>)
    ensures
        opt_name(r) == opt_name(*s),
{
    match s {
        Some(s) => Some(s.clone()),
        None => None,
    }
}

pub fn clone_opt_type(t: &Option<Type>) -> (r: Option<Type>)
    ensures
        opt_type(r) == opt_type(*t),
{
    match t {
        Some(t) => Some(t.clone()),
        None => None,
    }
}

/// An instruction with an opcode, one variant per Bril operation.
#[allow(inconsistent_fields)]
pub enum OpcodeInstruction {
    Const { dest: String, typ: Type, value: Literal },
    Alloc { args: Vec<String>, dest: String, typ: Type },
    Call { args: Option<Vec<String>>, dest: Option<String>, funcs: Vec<String>, typ: Option<Type> },
    Print { args: Vec<String> },
    Free { args: Vec<String> },
    Ret { args: Vec<String> },
    Id { args: Vec<String>, dest: String, typ: Type },
    Store { args: Vec<String> },
    Ptradd { args: Vec<String>, dest: String, typ: Type },
    Br { args: Vec<String>, labels: Vec<String> },
    Or { args: Vec<String>, dest: String, typ: Type },
    Add { args: Vec<String>, dest: String, typ: Type },
    Sub { args: Vec<String>, dest: String, typ: Type },
    Div { args: Vec<String>, dest: String, typ: Type },
    Mul { args: Vec<String>, dest: String, typ: Type },
    FAdd { args: Vec<String>, dest: String, typ: Type },
    FSub { args: Vec<String>, dest: String, typ: Type },
    FDiv { args: Vec<String>, dest: String, typ: Type },
    FMul { args: Vec<String>, dest: String, typ: Type },
    Eq { args: Vec<String>, dest: String, typ: Type },
    Gt { args: Vec<String>, dest: String, typ: Type },
    Ge { args: Vec<String>, dest: String, typ: Type },
    Lt { args: Vec<String>, dest: String, typ: Type },
    Le { args: Vec<String>, dest: String, typ: Type },
    FEq { args: Vec<String>, dest: String, typ: Type },
    FGt { args: Vec<String>, dest: String, typ: Type },
    FGe { args: Vec<String>, dest: String, typ: Type },
    FLt { args: Vec<String>, dest: String, typ: Type },
    FLe { args: Vec<String>, dest: String, typ: Type },
    And { args: Vec<String>, dest: String, typ: Type },
    Not { args: Vec<String>, dest: String, typ: Type },
    Load { args: Vec<String>, dest: String, typ: Type },
    Jmp { labels: Vec<String> },
}

/// The operation of an opcode instruction, without its operands.
#[derive(Clone, Copy, PartialEq, Eq, Structural)]
pub enum OpKind {
    Const,
    Alloc,
    Call,
    Print,
    Free,
    Ret,
    Id,
    Store,
    Ptradd,
    Br,
    Or,
    Add,
    Sub,
    Div,
    Mul,
    FAdd,
    FSub,
    FDiv,
    FMul,
    Eq,
    Gt,
    Ge,
    Lt,
    Le,
    FEq,
    FGt,
    FGe,
    FLt,
    FLe,
    And,
    Not,
    Load,
    Jmp,
}

/// The mathematical form of an opcode instruction: its operation and every
/// operand it carries, with names as character sequences. `args` is `None`
/// for operations without an argument list (`const`, `jmp`, and `call`
/// written without arguments).
pub struct OpView {
    pub kind: OpKind,
    pub args: Option<Seq<Seq<char>>>,
    pub dest: Option<Seq<char>>,
    pub typ: Option<TypeModel>,
    pub value: Option<LitModel>,
    pub labels: Seq<Seq<char>>,
    pub funcs: Seq<Seq<char>>,
}

pub open spec fn arith_view(kind: OpKind, args: Vec<String>, dest: String, typ: Type) -> OpView {
    OpView {
        kind,
        args: Some(names(args)),
        dest: Some(dest@),
        typ: Some(typ@),
        value: None,
        labels: seq![],
        funcs: seq![],
    }
}

impl OpView {
    /// The names an operation reads: its arguments, then (for branches and
    /// jumps) its labels.
    pub open spec fn uses(self) -> Seq<Seq<char>> {
        match self.args {
            Some(a) => a + self.labels,
            None => self.labels,
        }
    }

    pub open spec fn with_args(self, a: Seq<Seq<char>>) -> OpView {
        OpView { args: Some(a), ..self }
    }

    pub open spec fn is_control(self) -> bool {
        self.kind is Jmp || self.kind is Br
    }

    /// The operations with an effect beyond their destination.
    pub open spec fn has_effect(self) -> bool {
        ||| self.kind is Print
        ||| self.kind is Call
        ||| self.kind is Ret
        ||| self.kind is Store
        ||| self.kind is Alloc
        ||| self.kind is Free
    }
}

impl View for OpcodeInstruction {
    type V = OpView;

    open spec fn view(&self) -> OpView {
        match self {
            OpcodeInstruction::Const { dest, typ, value } => OpView { kind: OpKind::Const, args: None, dest: Some(dest@), typ: Some(typ@), value: Some(value@), labels: seq![], funcs: seq![] },
            OpcodeInstruction::Alloc { args, dest, typ } => arith_view(OpKind::Alloc, *args, *dest, *typ),
            OpcodeInstruction::Call { args, dest, funcs, typ } => OpView { kind: OpKind::Call, args: opt_names(*args), dest: opt_name(*dest), typ: opt_type(*typ), value: None, labels: seq![], funcs: names(*funcs) },
            OpcodeInstruction::Print { args } => OpView { kind: OpKind::Print, args: Some(names(*args)), dest: None, typ: None, value: None, labels: seq![], funcs: seq![] },
            OpcodeInstruction::Free { args } => OpView { kind: OpKind::Free, args: Some(names(*args)), dest: None, typ: None, value: None, labels: seq![], funcs: seq![] },
            OpcodeInstruction::Ret { args } => OpView { kind: OpKind::Ret, args: Some(names(*args)), dest: None, typ: None, value: None, labels: seq![], funcs: seq![] },
            OpcodeInstruction::Id { args, dest, typ } => arith_view(OpKind::Id, *args, *dest, *typ),
            OpcodeInstruction::Store { args } => OpView { kind: OpKind::Store, args: Some(names(*args)), dest: None, typ: None, value: None, labels: seq![], funcs: seq![] },
            OpcodeInstruction::Ptradd { args, dest, typ } => arith_view(OpKind::Ptradd, *args, *dest, *typ),
            OpcodeInstruction::Br { args, labels } => OpView { kind: OpKind::Br, args: Some(names(*args)), dest: None, typ: None, value: None, labels: names(*labels), funcs: seq![] },
            OpcodeInstruction::Or { args, dest, typ } => arith_view(OpKind::Or, *args, *dest, *typ),
            OpcodeInstruction::Add { args, dest, typ } => arith_view(OpKind::Add, *args, *dest, *typ),
            OpcodeInstruction::Sub { args, dest, typ } => arith_view(OpKind::Sub, *args, *dest, *typ),
            OpcodeInstruction::Div { args, dest, typ } => arith_view(OpKind::Div, *args, *dest, *typ),
            OpcodeInstruction::Mul { args, dest, typ } => arith_view(OpKind::Mul, *args, *dest, *typ),
            OpcodeInstruction::FAdd { args, dest, typ } => arith_view(OpKind::FAdd, *args, *dest, *typ),
            OpcodeInstruction::FSub { args, dest, typ } => arith_view(OpKind::FSub, *args, *dest, *typ),
            OpcodeInstruction::FDiv { args, dest, typ } => arith_view(OpKind::FDiv, *args, *dest, *typ),
            OpcodeInstruction::FMul { args, dest, typ } => arith_view(OpKind::FMul, *args, *dest, *typ),
            OpcodeInstruction::Eq { args, dest, typ } => arith_view(OpKind::Eq, *args, *dest, *typ),
            OpcodeInstruction::Gt { args, dest, typ } => arith_view(OpKind::Gt, *args, *dest, *typ),
            OpcodeInstruction::Ge { args, dest, typ } => arith_view(OpKind::Ge, *args, *dest, *typ),
            OpcodeInstruction::Lt { args, dest, typ } => arith_view(OpKind::Lt, *args, *dest, *typ),
            OpcodeInstruction::Le { args, dest, typ } => arith_view(OpKind::Le, *args, *dest, *typ),
            OpcodeInstruction::FEq { args, dest, typ } => arith_view(OpKind::FEq, *args, *dest, *typ),
            OpcodeInstruction::FGt { args, dest, typ } => arith_view(OpKind::FGt, *args, *dest, *typ),
            OpcodeInstruction::FGe { args, dest, typ } => arith_view(OpKind::FGe, *args, *dest, *typ),
            OpcodeInstruction::FLt { args, dest, typ } => arith_view(OpKind::FLt, *args, *dest, *typ),
            OpcodeInstruction::FLe { args, dest, typ } => arith_view(OpKind::FLe, *args, *dest, *typ),
            OpcodeInstruction::And { args, dest, typ } => arith_view(OpKind::And, *args, *dest, *typ),
            OpcodeInstruction::Not { args, dest, typ } => arith_view(OpKind::Not, *args, *dest, *typ),
            OpcodeInstruction::Load { args, dest, typ } => arith_view(OpKind::Load, *args, *dest, *typ),
            OpcodeInstruction::Jmp { labels } => OpView { kind: OpKind::Jmp, args: None, dest: None, typ: None, value: None, labels: names(*labels), funcs: seq![] },
        }
    }
}

impl Clone for OpcodeInstruction {
    fn clone(&self) -> (r: Self)
        ensures
            r@ == self@,
    {
        match self {
            OpcodeInstruction::Const { dest, typ, value } => OpcodeInstruction::Const { dest: dest.clone(), typ: typ.clone(), value: value.clone() },
            OpcodeInstruction::Alloc { args, dest, typ } => OpcodeInstruction::Alloc { args: clone_names(args), dest: dest.clone(), typ: typ.clone() },
            OpcodeInstruction::Call { args, dest, funcs, typ } => OpcodeInstruction::Call { args: clone_opt_names(args), dest: clone_opt_name(dest), funcs: clone_names(funcs), typ: clone_opt_type(typ) },
            OpcodeInstruction::Print { args } => OpcodeInstruction::Print { args: clone_names(args) },
            OpcodeInstruction::Free { args } => OpcodeInstruction::Free { args: clone_names(args) },
            OpcodeInstruction::Ret { args } => OpcodeInstruction::Ret { args: clone_names(args) },
            OpcodeInstruction::Id { args, dest, typ } => OpcodeInstruction::Id { args: clone_names(args), dest: dest.clone(), typ: typ.clone() },
            OpcodeInstruction::Store { args } => OpcodeInstruction::Store { args: clone_names(args) },
            OpcodeInstruction::Ptradd { args, dest, typ } => OpcodeInstruction::Ptradd { args: clone_names(args), dest: dest.clone(), typ: typ.clone() },
            OpcodeInstruction::Br { args, labels } => OpcodeInstruction::Br { args: clone_names(args), labels: clone_names(labels) },
            OpcodeInstruction::Or { args, dest, typ } => OpcodeInstruction::Or { args: clone_names(args), dest: dest.clone(), typ: typ.clone() },
            OpcodeInstruction::Add { args, dest, typ } => OpcodeInstruction::Add { args: clone_names(args), dest: dest.clone(), typ: typ.clone() },
            OpcodeInstruction::Sub { args, dest, typ } => OpcodeInstruction::Sub { args: clone_names(args), dest: dest.clone(), typ: typ.clone() },
            OpcodeInstruction::Div { args, dest, typ } => OpcodeInstruction::Div { args: clone_names(args), dest: dest.clone(), typ: typ.clone() },
            OpcodeInstruction::Mul { args, dest, typ } => OpcodeInstruction::Mul { args: clone_names(args), dest: dest.clone(), typ: typ.clone() },
            OpcodeInstruction::FAdd { args, dest, typ } => OpcodeInstruction::FAdd { args: clone_names(args), dest: dest.clone(), typ: typ.clone() },
            OpcodeInstruction::FSub { args, dest, typ } => OpcodeInstruction::FSub { args: clone_names(args), dest: dest.clone(), typ: typ.clone() },
            OpcodeInstruction::FDiv { args, dest, typ } => OpcodeInstruction::FDiv { args: clone_names(args), dest: dest.clone(), typ: typ.clone() },
            OpcodeInstruction::FMul { args, dest, typ } => OpcodeInstruction::FMul { args: clone_names(args), dest: dest.clone(), typ: typ.clone() },
            OpcodeInstruction::Eq { args, dest, typ } => OpcodeInstruction::Eq { args: clone_names(args), dest: dest.clone(), typ: typ.clone() },
            OpcodeInstruction::Gt { args, dest, typ } => OpcodeInstruction::Gt { args: clone_names(args), dest: dest.clone(), typ: typ.clone() },
            OpcodeInstruction::Ge { args, dest, typ } => OpcodeInstruction::Ge { args: clone_names(args), dest: dest.clone(), typ: typ.clone() },
            OpcodeInstruction::Lt { args, dest, typ } => OpcodeInstruction::Lt { args: clone_names(args), dest: dest.clone(), typ: typ.clone() },
            OpcodeInstruction::Le { args, dest, typ } => OpcodeInstruction::Le { args: clone_names(args), dest: dest.clone(), typ: typ.clone() },
            OpcodeInstruction::FEq { args, dest, typ } => OpcodeInstruction::FEq { args: clone_names(args), dest: dest.clone(), typ: typ.clone() },
            OpcodeInstruction::FGt { args, dest, typ } => OpcodeInstruction::FGt { args: clone_names(args), dest: dest.clone(), typ: typ.clone() },
            OpcodeInstruction::FGe { args, dest, typ } => OpcodeInstruction::FGe { args: clone_names(args), dest: dest.clone(), typ: typ.clone() },
            OpcodeInstruction::FLt { args, dest, typ } => OpcodeInstruction::FLt { args: clone_names(args), dest: dest.clone(), typ: typ.clone() },
            OpcodeInstruction::FLe { args, dest, typ } => OpcodeInstruction::FLe { args: clone_names(args), dest: dest.clone(), typ: typ.clone() },
            OpcodeInstruction::And { args, dest, typ } => OpcodeInstruction::And { args: clone_names(args), dest: dest.clone(), typ: typ.clone() },
            OpcodeInstruction::Not { args, dest, typ } => OpcodeInstruction::Not { args: clone_names(args), dest: dest.clone(), typ: typ.clone() },
            OpcodeInstruction::Load { args, dest, typ } => OpcodeInstruction::Load { args: clone_names(args), dest: dest.clone(), typ: typ.clone() },
            OpcodeInstruction::Jmp { labels } => OpcodeInstruction::Jmp { labels: clone_names(labels) },
        }
    }
}

impl OpcodeInstruction {
    /// Whether the instruction assigns its result to a destination.
    pub fn is_assignment_inst(&self) -> (r: bool)
        ensures
            r == (self@.dest is Some),
    {
        self.get_dest().is_some()
    }

    pub fn get_type(&self) -> (r: Option<Type>)
        ensures
            opt_type(r) == self@.typ,
    {
        match self {
            OpcodeInstruction::Const { typ, .. } => Some(typ.clone()),
            OpcodeInstruction::Alloc { typ, .. } => Some(typ.clone()),
            OpcodeInstruction::Call { typ, .. } => clone_opt_type(typ),
            OpcodeInstruction::Print { .. } => None,
            OpcodeInstruction::Free { .. } => None,
            OpcodeInstruction::Ret { .. } => None,
            OpcodeInstruction::Id { typ, .. } => Some(typ.clone()),
            OpcodeInstruction::Store { .. } => None,
            OpcodeInstruction::Ptradd { typ, .. } => Some(typ.clone()),
            OpcodeInstruction::Br { .. } => None,
            OpcodeInstruction::Or { typ, .. } => Some(typ.clone()),
            OpcodeInstruction::Add { typ, .. } => Some(typ.clone()),
            OpcodeInstruction::Sub { typ, .. } => Some(typ.clone()),
            OpcodeInstruction::Div { typ, .. } => Some(typ.clone()),
            OpcodeInstruction::Mul { typ, .. } => Some(typ.clone()),
            OpcodeInstruction::FAdd { typ, .. } => Some(typ.clone()),
            OpcodeInstruction::FSub { typ, .. } => Some(typ.clone()),
            OpcodeInstruction::FDiv { typ, .. } => Some(typ.clone()),
            OpcodeInstruction::FMul { typ, .. } => Some(typ.clone()),
            OpcodeInstruction::Eq { typ, .. } => Some(typ.clone()),
            OpcodeInstruction::Gt { typ, .. } => Some(typ.clone()),
            OpcodeInstruction::Ge { typ, .. } => Some(typ.clone()),
            OpcodeInstruction::Lt { typ, .. } => Some(typ.clone()),
            OpcodeInstruction::Le { typ, .. } => Some(typ.clone()),
            OpcodeInstruction::FEq { typ, .. } => Some(typ.clone()),
            OpcodeInstruction::FGt { typ, .. } => Some(typ.clone()),
            OpcodeInstruction::FGe { typ, .. } => Some(typ.clone()),
            OpcodeInstruction::FLt { typ, .. } => Some(typ.clone()),
            OpcodeInstruction::FLe { typ, .. } => Some(typ.clone()),
            OpcodeInstruction::And { typ, .. } => Some(typ.clone()),
            OpcodeInstruction::Not { typ, .. } => Some(typ.clone()),
            OpcodeInstruction::Load { typ, .. } => Some(typ.clone()),
            OpcodeInstruction::Jmp { .. } => None,
        }
    }

    pub fn get_dest(&self) -> (r: Option<String>)
        ensures
            opt_name(r) == self@.dest,
    {
        match self {
            OpcodeInstruction::Const { dest, .. } => Some(dest.clone()),
            OpcodeInstruction::Alloc { dest, .. } => Some(dest.clone()),
            OpcodeInstruction::Call { dest, .. } => clone_opt_name(dest),
            OpcodeInstruction::Print { .. } => None,
            OpcodeInstruction::Free { .. } => None,
            OpcodeInstruction::Ret { .. } => None,
            OpcodeInstruction::Id { dest, .. } => Some(dest.clone()),
            OpcodeInstruction::Store { .. } => None,
            OpcodeInstruction::Ptradd { dest, .. } => Some(dest.clone()),
            OpcodeInstruction::Br { .. } => None,
            OpcodeInstruction::Or { dest, .. } => Some(dest.clone()),
            OpcodeInstruction::Add { dest, .. } => Some(dest.clone()),
            OpcodeInstruction::Sub { dest, .. } => Some(dest.clone()),
            OpcodeInstruction::Div { dest, .. } => Some(dest.clone()),
            OpcodeInstruction::Mul { dest, .. } => Some(dest.clone()),
            OpcodeInstruction::FAdd { dest, .. } => Some(dest.clone()),
            OpcodeInstruction::FSub { dest, .. } => Some(dest.clone()),
            OpcodeInstruction::FDiv { dest, .. } => Some(dest.clone()),
            OpcodeInstruction::FMul { dest, .. } => Some(dest.clone()),
            OpcodeInstruction::Eq { dest, .. } => Some(dest.clone()),
            OpcodeInstruction::Gt { dest, .. } => Some(dest.clone()),
            OpcodeInstruction::Ge { dest, .. } => Some(dest.clone()),
            OpcodeInstruction::Lt { dest, .. } => Some(dest.clone()),
            OpcodeInstruction::Le { dest, .. } => Some(dest.clone()),
            OpcodeInstruction::FEq { dest, .. } => Some(dest.clone()),
            OpcodeInstruction::FGt { dest, .. } => Some(dest.clone()),
            OpcodeInstruction::FGe { dest, .. } => Some(dest.clone()),
            OpcodeInstruction::FLt { dest, .. } => Some(dest.clone()),
            OpcodeInstruction::FLe { dest, .. } => Some(dest.clone()),
            OpcodeInstruction::And { dest, .. } => Some(dest.clone()),
            OpcodeInstruction::Not { dest, .. } => Some(dest.clone()),
            OpcodeInstruction::Load { dest, .. } => Some(dest.clone()),
            OpcodeInstruction::Jmp { .. } => None,
        }
    }

    pub fn get_use_list(&self) -> (r: Vec<String>)
        ensures
            names(r) == self@.uses(),
    {
        match self {
            OpcodeInstruction::Const { .. } => Vec::new(),
            OpcodeInstruction::Alloc { args, .. } => clone_names(args),
            OpcodeInstruction::Call { args, .. } => match args {
                Some(args) => clone_names(args),
                None => Vec::new(),
            },
            OpcodeInstruction::Print { args, .. } => clone_names(args),
            OpcodeInstruction::Free { args, .. } => clone_names(args),
            OpcodeInstruction::Ret { args, .. } => clone_names(args),
            OpcodeInstruction::Id { args, .. } => clone_names(args),
            OpcodeInstruction::Store { args, .. } => clone_names(args),
            OpcodeInstruction::Ptradd { args, .. } => clone_names(args),
            OpcodeInstruction::Br { args, labels } => {
                let mut uses = clone_names(args);
                append_names(&mut uses, labels);
                uses
            },
            OpcodeInstruction::Or { args, .. } => clone_names(args),
            OpcodeInstruction::Add { args, .. } => clone_names(args),
            OpcodeInstruction::Sub { args, .. } => clone_names(args),
            OpcodeInstruction::Div { args, .. } => clone_names(args),
            OpcodeInstruction::Mul { args, .. } => clone_names(args),
            OpcodeInstruction::FAdd { args, .. } => clone_names(args),
            OpcodeInstruction::FSub { args, .. } => clone_names(args),
            OpcodeInstruction::FDiv { args, .. } => clone_names(args),
            OpcodeInstruction::FMul { args, .. } => clone_names(args),
            OpcodeInstruction::Eq { args, .. } => clone_names(args),
            OpcodeInstruction::Gt { args, .. } => clone_names(args),
            OpcodeInstruction::Ge { args, .. } => clone_names(args),
            OpcodeInstruction::Lt { args, .. } => clone_names(args),
            OpcodeInstruction::Le { args, .. } => clone_names(args),
            OpcodeInstruction::FEq { args, .. } => clone_names(args),
            OpcodeInstruction::FGt { args, .. } => clone_names(args),
            OpcodeInstruction::FGe { args, .. } => clone_names(args),
            OpcodeInstruction::FLt { args, .. } => clone_names(args),
            OpcodeInstruction::FLe { args, .. } => clone_names(args),
            OpcodeInstruction::And { args, .. } => clone_names(args),
            OpcodeInstruction::Not { args, .. } => clone_names(args),
            OpcodeInstruction::Load { args, .. } => clone_names(args),
            OpcodeInstruction::Jmp { labels } => clone_names(labels),
        }
    }

    pub fn get_args(&mut self) -> (r: Option<&mut Vec<String>>)
        ensures
            r is Some <==> old(self)@.args is Some,
            r matches Some(a) ==> names(*a) == old(self)@.args.unwrap() && final(self)@ == old(self)@.with_args(names(*final(a))),
            r is None ==> final(self)@ == old(self)@,
    {
        match self {
            OpcodeInstruction::Const { .. } => None,
            OpcodeInstruction::Alloc { args, .. } => Some(args),
            OpcodeInstruction::Call { args: Some(args), .. } => Some(args),
            OpcodeInstruction::Call { args: None, .. } => None,
            OpcodeInstruction::Print { args, .. } => Some(args),
            OpcodeInstruction::Free { args, .. } => Some(args),
            OpcodeInstruction::Ret { args, .. } => Some(args),
            OpcodeInstruction::Id { args, .. } => Some(args),
            OpcodeInstruction::Store { args, .. } => Some(args),
            OpcodeInstruction::Ptradd { args, .. } => Some(args),
            OpcodeInstruction::Br { args, .. } => Some(args),
            OpcodeInstruction::Or { args, .. } => Some(args),
            OpcodeInstruction::Add { args, .. } => Some(args),
            OpcodeInstruction::Sub { args, .. } => Some(args),
            OpcodeInstruction::Div { args, .. } => Some(args),
            OpcodeInstruction::Mul { args, .. } => Some(args),
            OpcodeInstruction::FAdd { args, .. } => Some(args),
            OpcodeInstruction::FSub { args, .. } => Some(args),
            OpcodeInstruction::FDiv { args, .. } => Some(args),
            OpcodeInstruction::FMul { args, .. } => Some(args),
            OpcodeInstruction::Eq { args, .. } => Some(args),
            OpcodeInstruction::Gt { args, .. } => Some(args),
            OpcodeInstruction::Ge { args, .. } => Some(args),
            OpcodeInstruction::Lt { args, .. } => Some(args),
            OpcodeInstruction::Le { args, .. } => Some(args),
            OpcodeInstruction::FEq { args, .. } => Some(args),
            OpcodeInstruction::FGt { args, .. } => Some(args),
            OpcodeInstruction::FGe { args, .. } => Some(args),
            OpcodeInstruction::FLt { args, .. } => Some(args),
            OpcodeInstruction::FLe { args, .. } => Some(args),
            OpcodeInstruction::And { args, .. } => Some(args),
            OpcodeInstruction::Not { args, .. } => Some(args),
            OpcodeInstruction::Load { args, .. } => Some(args),
            OpcodeInstruction::Jmp { .. } => None,
        }
    }

}

/// An instruction: an operation, a label, or a `nop`.
pub enum Instruction {
    Opcode(OpcodeInstruction),
    Label { label: String },
    Nop { op: String },
}

/// The mathematical form of an instruction.
pub enum InstrView {
    Opcode(OpView),
    Label(Seq<char>),
    Nop(Seq<char>),
}

impl View for Instruction {
    type V = InstrView;

    open spec fn view(&self) -> InstrView {
        match self {
            Instruction::Opcode(op) => InstrView::Opcode(op@),
            Instruction::Label { label } => InstrView::Label(label@),
            Instruction::Nop { op } => InstrView::Nop(op@),
        }
    }
}

impl InstrView {
    /// `jmp` and `br`: the instructions that end a basic block.
    pub open spec fn is_control(self) -> bool {
        self matches InstrView::Opcode(op) && op.is_control()
    }

    pub open spec fn is_label(self) -> bool {
        self is Label
    }

    /// Whether removing the instruction could only change the value of its
    /// destination: labels, control flow, and effectful operations
    /// (`print`, `call`, `ret`, `store`, `alloc`, `free`) are not pure.
    pub open spec fn is_pure(self) -> bool {
        match self {
            InstrView::Label(_) => false,
            InstrView::Opcode(op) => !op.has_effect() && !op.is_control(),
            InstrView::Nop(_) => true,
        }
    }

    /// The names the instruction reads.
    pub open spec fn uses(self) -> Seq<Seq<char>> {
        match self {
            InstrView::Opcode(op) => op.uses(),
            _ => seq![],
        }
    }

    /// The name the instruction defines: an opcode's destination, or a
    /// label's own name.
    pub open spec fn result(self) -> Option<Seq<char>> {
        match self {
            InstrView::Opcode(op) => op.dest,
            InstrView::Label(l) => Some(l),
            InstrView::Nop(_) => None,
        }
    }

    /// The labels a `jmp` or `br` may transfer control to.
    pub open spec fn targets(self) -> Seq<Seq<char>> {
        match self {
            InstrView::Opcode(op) => op.labels,
            _ => seq![],
        }
    }
}

/// The views of a sequence of instructions.
pub open spec fn views(s: Seq<Instruction>) -> Seq<InstrView> {
    s.map_values(|i: Instruction| i@)
}

impl Clone for Instruction {
    fn clone(&self) -> (r: Self)
        ensures
            r@ == self@,
    {
        match self {
            Instruction::Opcode(op) => Instruction::Opcode(op.clone()),
            Instruction::Label { label } => Instruction::Label { label: label.clone() },
            Instruction::Nop { op } => Instruction::Nop { op: op.clone() },
        }
    }
}

impl Instruction {
    /// `jmp` and `br`.
    pub fn is_control_inst(&self) -> (r: bool)
        ensures
            r == self@.is_control(),
    {
        if let Instruction::Opcode(inst) = self {
            match inst {
                OpcodeInstruction::Jmp { .. } | OpcodeInstruction::Br { .. } => true,
                _ => false,
            }
        } else {
            false
        }
    }

    pub fn is_label(&self) -> (r: bool)
        ensures
            r == self@.is_label(),
    {
        match self {
            Instruction::Label { .. } => true,
            _ => false,
        }
    }

    /// An instruction is meaningful when it is not pure.
    pub fn is_meaningful(&self) -> (r: bool)
        ensures
            r == !self@.is_pure(),
    {
        !self.has_no_side_effects()
    }

    pub fn has_no_side_effects(&self) -> (r: bool)
        ensures
            r == self@.is_pure(),
    {
        match self {
            Instruction::Label { .. } => false,
            Instruction::Opcode(inst) => match inst {
                OpcodeInstruction::Print { .. }
                | OpcodeInstruction::Call { .. }
                | OpcodeInstruction::Ret { .. }
                | OpcodeInstruction::Store { .. }
                | OpcodeInstruction::Alloc { .. }
                | OpcodeInstruction::Free { .. } => false,
                _ => {
                    if self.is_control_inst() {
                        false
                    } else {
                        true
                    }
                },
            },
            _ => true,
        }
    }

    pub fn get_use_list(&self) -> (r: Vec<String>)
        ensures
            names(r) == self@.uses(),
    {
        match self {
            Instruction::Opcode(inst) => inst.get_use_list(),
            Instruction::Label { .. } => Vec::new(),
            Instruction::Nop { .. } => Vec::new(),
        }
    }

    pub fn get_result(&self) -> (r: Option<String>)
        ensures
            opt_name(r) == self@.result(),
    {
        match self {
            Instruction::Opcode(inst) => inst.get_dest(),
            Instruction::Label { label } => Some(label.clone()),
            Instruction::Nop { .. } => None,
        }
    }
}

/// A whole program: its functions in order.
pub struct Program {
    pub functions: Vec<Function>,
}

/// A function: its name, parameters, body and return type.
pub struct Function {
    pub name: String,
    pub args: Option<Vec<Argument>>,
    pub instrs: Vec<Instruction>,
    pub return_type: Option<Type>,
}

/// A basic block of a function, with its links to the other blocks of the
/// same function given as indices into the function's block list.
pub struct BasicBlock {
    pub instrs: Vec<Instruction>,
    /// The label that other blocks jump to in order to enter this block.
    pub label: Option<String>,
    /// The labels this block may jump to.
    pub out_labels: Vec<String>,
    /// The blocks that may transfer control to this block.
    pub in_bb_indices: HashSet<usize>,
    /// The blocks this block may transfer control to.
    pub out_bb_indices: HashSet<usize>,
    /// The block that immediately dominates this block.
    pub immediate_dominator_index: usize,
}

impl BasicBlock {
    /// The instructions of the block, as views.
    pub open spec fn ins(&self) -> Seq<InstrView> {
        views(self.instrs@)
    }

    pub fn new() -> (bb: BasicBlock)
        ensures
            bb.instrs@.len() == 0,
            bb.label is None,
            bb.out_labels@.len() == 0,
            bb.in_bb_indices@ == Set::<usize>::empty(),
            bb.out_bb_indices@ == Set::<usize>::empty(),
            bb.immediate_dominator_index == 0,
    {
        BasicBlock {
            instrs: Vec::new(),
            label: None,
            out_labels: Vec::new(),
            in_bb_indices: HashSet::new(),
            out_bb_indices: HashSet::new(),
            immediate_dominator_index: 0,
        }
    }
}

/// The instructions of each block, as views.
pub open spec fn block_views(bbs: Seq<BasicBlock>) -> Seq<Seq<InstrView>> {
    bbs.map_values(|b: BasicBlock| b.ins())
}

/// `bs` cuts a list of instructions into basic blocks: no block is empty, a
/// label can only open a block and a `jmp` or `br` can only close one, and
/// every block after the first opens with a label or follows a block that
/// closes with a `jmp` or `br`.
pub open spec fn is_block_partition(bs: Seq<Seq<InstrView>>) -> bool {
    &&& forall|k: int| 0 <= k < bs.len() ==> (#[trigger] bs[k]).len() > 0
    &&& forall|k: int, j: int|
        0 <= k < bs.len() && 0 < j < bs[k].len() ==> !(#[trigger] bs[k][j]).is_label()
            && !bs[k][j - 1].is_control()
    &&& forall|k: int| 0 < k < bs.len() ==> (#[trigger] bs[k])[0].is_label() || bs[k - 1].last().is_control()
}

/// The position, in the flattened list, of the first element of block `k`.
pub open spec fn block_offset(bs: Seq<Seq<InstrView>>, k: int) -> nat {
    bs.take(k).flatten().len()
}

/// Element `i` of block `k` sits at `block_offset(bs, k) + i` of the
/// flattened list, and the next block starts right after block `k`.
pub proof fn lemma_flatten_index(bs: Seq<Seq<InstrView>>, k: int, i: int)
    requires
        0 <= k < bs.len(),
        0 <= i <= bs[k].len(),
    ensures
        block_offset(bs, k) + bs[k].len() == block_offset(bs, k + 1),
        block_offset(bs, k + 1) <= bs.flatten().len(),
        i < bs[k].len() ==> bs.flatten()[block_offset(bs, k) + i] == bs[k][i],
{
    broadcast use Seq::lemma_flatten_push;

    let pre = bs.take(k);
    let rest = bs.skip(k);
    assert(bs =~= pre + rest);
    vstd::seq_lib::lemma_flatten_concat(pre, rest);
    assert(rest.flatten() == rest[0] + rest.drop_first().flatten());
    assert(rest[0] == bs[k]);
    assert(bs.take(k + 1) =~= pre.push(bs[k]));
    assert(bs.take(k + 1).flatten() == pre.flatten() + bs[k]);
    if i < bs[k].len() {
        assert(bs.flatten()[pre.flatten().len() + i] == (rest[0] + rest.drop_first().flatten())[i]);
    }
}

/// The basic blocks of a list of instructions (there is exactly one way to
/// cut a list into blocks; see `lemma_block_partition_unique`).
pub open spec fn block_partition(s: Seq<InstrView>) -> Seq<Seq<InstrView>> {
    choose|bs: Seq<Seq<InstrView>>| is_block_partition(bs) && bs.flatten() == s
}

proof fn lemma_partition_drop_first(a: Seq<Seq<InstrView>>)
    requires
        is_block_partition(a),
        a.len() > 0,
    ensures
        is_block_partition(a.drop_first()),
        a.flatten() == a[0] + a.drop_first().flatten(),
{
    let d = a.drop_first();
    assert forall|k: int| 0 <= k < d.len() implies (#[trigger] d[k]).len() > 0 by {
        assert(d[k] == a[k + 1]);
    }
    assert forall|k: int, j: int| 0 <= k < d.len() && 0 < j < d[k].len() implies !(#[trigger] d[k][j]).is_label()
        && !d[k][j - 1].is_control() by {
        assert(d[k] == a[k + 1]);
    }
    assert forall|k: int| 0 < k < d.len() implies (#[trigger] d[k])[0].is_label() || d[k - 1].last().is_control() by {
        assert(d[k] == a[k + 1]);
        assert(d[k - 1] == a[k]);
    }
}

/// A list of instructions has only one partition into basic blocks.
#[verifier::spinoff_prover]
#[verifier::rlimit(30)]
pub proof fn lemma_block_partition_unique(a: Seq<Seq<InstrView>>, b: Seq<Seq<InstrView>>)
    requires
        is_block_partition(a),
        is_block_partition(b),
        a.flatten() == b.flatten(),
    ensures
        a == b,
    decreases a.len(),
{
    if a.len() == 0 {
        if b.len() > 0 {
            lemma_partition_drop_first(b);
            assert(b.flatten().len() >= b[0].len());
            assert(b[0].len() > 0);
        }
        assert(a =~= b);
    } else if b.len() == 0 {
        lemma_partition_drop_first(a);
        assert(a[0].len() > 0);
    } else {
        lemma_partition_drop_first(a);
        lemma_partition_drop_first(b);
        let s = a.flatten();
        let la = a[0].len();
        let lb = b[0].len();
        if la < lb {
            // position la opens a block of `a` but lies inside the first block of `b`
            assert(s[la as int] == b[0][la as int]);
            assert(!b[0][la as int].is_label() && !b[0][la - 1].is_control());
            assert(a.len() > 1) by {
                if a.len() == 1 {
                    assert(a.drop_first().flatten() =~= seq![]);
                    assert(s.len() == la);
                }
            }
            lemma_partition_drop_first(a.drop_first());
            assert(a.drop_first()[0] == a[1]);
            assert(s[la as int] == a[1][0]);
            assert(s[la - 1] == a[0][la - 1]);
            assert(s[la - 1] == b[0][la - 1]);
            assert(a[1][0].is_label() || a[0].last().is_control());
        } else if lb < la {
            assert(s[lb as int] == a[0][lb as int]);
            assert(!a[0][lb as int].is_label() && !a[0][lb - 1].is_control());
            assert(b.len() > 1) by {
                if b.len() == 1 {
                    assert(b.drop_first().flatten() =~= seq![]);
                    assert(s.len() == lb);
                }
            }
            lemma_partition_drop_first(b.drop_first());
            assert(b.drop_first()[0] == b[1]);
            assert(s[lb as int] == b[1][0]);
            assert(s[lb - 1] == b[0][lb - 1]);
            assert(s[lb - 1] == a[0][lb - 1]);
            assert(b[1][0].is_label() || b[0].last().is_control());
        }
        assert(a[0] =~= s.take(la as int));
        assert(b[0] =~= s.take(lb as int));
        assert(a.drop_first().flatten() =~= s.skip(la as int));
        assert(b.drop_first().flatten() =~= s.skip(lb as int));
        lemma_block_partition_unique(a.drop_first(), b.drop_first());
        assert(a =~= seq![a[0]] + a.drop_first());
        assert(b =~= seq![b[0]] + b.drop_first());
    }
}

/// A partition of `s` into basic blocks is the partition of `s`.
pub proof fn lemma_is_the_partition(bs: Seq<Seq<InstrView>>, s: Seq<InstrView>)
    requires
        is_block_partition(bs),
        bs.flatten() == s,
    ensures
        block_partition(s) == bs,
{
    let c = block_partition(s);
    assert(is_block_partition(c) && c.flatten() == s);
    lemma_block_partition_unique(c, bs);
}

/// The label that opens a block, if one does.
pub open spec fn block_label(b: Seq<InstrView>) -> Option<Seq<char>> {
    if b.len() > 0 && b[0] is Label {
        b[0].result()
    } else {
        None
    }
}

/// The labels block `k` leaves through: the targets of its closing `jmp` or
/// `br`, or else the label that opens the next block.
pub open spec fn block_out_labels(bs: Seq<Seq<InstrView>>, k: int) -> Seq<Seq<char>> {
    if bs[k].last().is_control() {
        bs[k].last().targets()
    } else if k + 1 < bs.len() {
        seq![bs[k + 1][0].result().unwrap()]
    } else {
        seq![]
    }
}

/// Block `j` is where a jump to label `l` lands: the last block opened by
/// `l`.
pub open spec fn is_label_target(bs: Seq<Seq<InstrView>>, l: Seq<char>, j: int) -> bool {
    &&& 0 <= j < bs.len()
    &&& block_label(bs[j]) == Some(l)
    &&& forall|k: int| j < k < bs.len() ==> block_label(bs[k]) != Some(l)
}

/// Block `k` runs on into block `k + 1` without a jump.
pub open spec fn falls_through(bs: Seq<Seq<InstrView>>, k: int) -> bool {
    k + 1 < bs.len() && !bs[k].last().is_control()
}

/// The control-flow edges between blocks.
pub open spec fn cfg_edge(bs: Seq<Seq<InstrView>>, k: int, j: int) -> bool {
    ||| exists|m: int|
        0 <= m < block_out_labels(bs, k).len() && is_label_target(
            bs,
            #[trigger] block_out_labels(bs, k)[m],
            j,
        )
    ||| falls_through(bs, k) && j == k + 1
}

/// The blocks cut so far from a prefix of a function, `done`, and the block
/// under construction, `c`, together make up that prefix and keep the
/// block shape rules.
#[verifier::opaque]
spec fn split_ok(done: Seq<Seq<InstrView>>, c: Seq<InstrView>, prefix: Seq<InstrView>) -> bool {
    &&& done.flatten() + c == prefix
    &&& forall|k: int| 0 <= k < done.len() ==> (#[trigger] done[k]).len() > 0
    &&& forall|k: int, j: int|
        0 <= k < done.len() && 0 < j < done[k].len() ==> !(#[trigger] done[k][j]).is_label()
            && !done[k][j - 1].is_control()
    &&& forall|j: int| 0 < j < c.len() ==> !(#[trigger] c[j]).is_label() && !c[j - 1].is_control()
    &&& forall|k: int| 0 < k < done.len() ==> (#[trigger] done[k])[0].is_label() || done[k - 1].last().is_control()
    &&& c.len() > 0 && done.len() > 0 ==> c[0].is_label() || done.last().last().is_control()
    &&& c.len() > 0 ==> !c.last().is_control()
    &&& c.len() == 0 ==> done.len() == 0 || done.last().last().is_control()
}

proof fn lemma_split_label_closes(done: Seq<Seq<InstrView>>, c: Seq<InstrView>, prefix: Seq<InstrView>, x: InstrView)
    requires
        split_ok(done, c, prefix),
        x.is_label(),
        c.len() > 0,
    ensures
        split_ok(done.push(c), seq![x], prefix.push(x)),
{
    reveal(split_ok);
    broadcast use Seq::lemma_flatten_push;

    let d2 = done.push(c);
    assert(d2.flatten() == done.flatten() + c);
    assert(d2.flatten() + seq![x] =~= prefix.push(x));
    assert forall|k: int| 0 < k < d2.len() implies (#[trigger] d2[k])[0].is_label() || d2[k - 1].last().is_control() by {
        if k < d2.len() - 1 {
            assert(d2[k] == done[k]);
        }
    }
    assert forall|k: int, j: int| 0 <= k < d2.len() && 0 < j < d2[k].len() implies !(#[trigger] d2[k][j]).is_label()
        && !d2[k][j - 1].is_control() by {
        if k < d2.len() - 1 {
            assert(d2[k] == done[k]);
        }
    }
}

proof fn lemma_split_label_opens(done: Seq<Seq<InstrView>>, c: Seq<InstrView>, prefix: Seq<InstrView>, x: InstrView)
    requires
        split_ok(done, c, prefix),
        x.is_label(),
        c.len() == 0,
    ensures
        split_ok(done, seq![x], prefix.push(x)),
{
    reveal(split_ok);
    assert(done.flatten() + seq![x] =~= prefix.push(x));
}

proof fn lemma_split_control(done: Seq<Seq<InstrView>>, c: Seq<InstrView>, prefix: Seq<InstrView>, x: InstrView)
    requires
        split_ok(done, c, prefix),
        !x.is_label(),
        x.is_control(),
    ensures
        split_ok(done.push(c.push(x)), seq![], prefix.push(x)),
{
    reveal(split_ok);
    broadcast use Seq::lemma_flatten_push;

    let d2 = done.push(c.push(x));
    assert(d2.flatten() == done.flatten() + c.push(x));
    assert(d2.flatten() + seq![] =~= prefix.push(x));
    assert forall|k: int, j: int| 0 <= k < d2.len() && 0 < j < d2[k].len() implies !(#[trigger] d2[k][j]).is_label()
        && !d2[k][j - 1].is_control() by {
        if k == d2.len() - 1 {
            assert(d2[k] == c.push(x));
            if j < c.len() {
                assert(d2[k][j] == c[j]);
                assert(d2[k][j - 1] == c[j - 1]);
            } else {
                assert(d2[k][j] == x);
                assert(d2[k][j - 1] == c[j - 1]);
                assert(c[j - 1] == c.last());
            }
        } else {
            assert(d2[k] == done[k]);
        }
    }
    assert forall|k: int| 0 < k < d2.len() implies (#[trigger] d2[k])[0].is_label() || d2[k - 1].last().is_control() by {
        if k == d2.len() - 1 {
            if c.len() > 0 {
                assert(d2[k][0] == c[0]);
            } else {
                assert(d2[k - 1] == done.last());
            }
        } else {
            assert(d2[k] == done[k]);
        }
    }
}

proof fn lemma_split_plain(done: Seq<Seq<InstrView>>, c: Seq<InstrView>, prefix: Seq<InstrView>, x: InstrView)
    requires
        split_ok(done, c, prefix),
        !x.is_label(),
        !x.is_control(),
    ensures
        split_ok(done, c.push(x), prefix.push(x)),
{
    reveal(split_ok);
    assert(done.flatten() + c.push(x) =~= prefix.push(x));
    let c2 = c.push(x);
    assert forall|j: int| 0 < j < c2.len() implies !(#[trigger] c2[j]).is_label() && !c2[j - 1].is_control() by {
        if j < c.len() {
            assert(c2[j] == c[j]);
        }
    }
}

/// At the end of block construction, closing a non-empty last block yields
/// a partition of the whole function.
proof fn lemma_split_finish_open(done: Seq<Seq<InstrView>>, c: Seq<InstrView>, s: Seq<InstrView>)
    requires
        split_ok(done, c, s),
        c.len() > 0,
    ensures
        done.push(c).flatten() == s,
        is_block_partition(done.push(c)),
{
    reveal(split_ok);
    broadcast use Seq::lemma_flatten_push;

    let bs = done.push(c);
    assert(bs.flatten() == done.flatten() + c);
    assert forall|k: int, j: int| 0 <= k < bs.len() && 0 < j < bs[k].len() implies !(#[trigger] bs[k][j]).is_label()
        && !bs[k][j - 1].is_control() by {
        if k < done.len() {
            assert(bs[k] == done[k]);
        }
    }
    assert forall|k: int| 0 < k < bs.len() implies (#[trigger] bs[k])[0].is_label() || bs[k - 1].last().is_control() by {
        if k < done.len() {
            assert(bs[k] == done[k]);
        }
    }
}

/// At the end of block construction with nothing left open, the blocks so
/// far are a partition of the whole function.
proof fn lemma_split_finish_closed(done: Seq<Seq<InstrView>>, c: Seq<InstrView>, s: Seq<InstrView>)
    requires
        split_ok(done, c, s),
        c.len() == 0,
    ensures
        done.flatten() == s,
        is_block_partition(done),
{
    reveal(split_ok);
    assert(s =~= done.flatten());
}

/// The views of a list of instruction lists.
pub open spec fn nested_views(v: Seq<Vec<Instruction>>) -> Seq<Seq<InstrView>> {
    v.map_values(|b: Vec<Instruction>| views(b@))
}

/// Cuts a list of instructions into the instruction lists of its basic
/// blocks.
fn split_blocks(instrs: &Vec<Instruction>) -> (r: Vec<Vec<Instruction>>)
    ensures
        nested_views(r@).flatten() == views(instrs@),
        is_block_partition(nested_views(r@)),
{
    let ghost s = views(instrs@);
    let mut ret: Vec<Vec<Instruction>> = Vec::new();
    let mut cur: Vec<Instruction> = Vec::new();
    proof {
        reveal(split_ok);
        assert(s.take(0) =~= seq![]);
        assert(nested_views(ret@) =~= seq![]);
        assert(views(cur@) =~= seq![]);
        assert(nested_views(ret@).flatten() =~= seq![]);
    }
    let mut i: usize = 0;
    while i < instrs.len()
        invariant
            s == views(instrs@),
            i <= instrs.len(),
            split_ok(nested_views(ret@), views(cur@), s.take(i as int)),
        decreases instrs.len() - i,
    {
        let inst = &instrs[i];
        let ghost done0 = nested_views(ret@);
        let ghost c0 = views(cur@);
        let ghost p0 = s.take(i as int);
        assert(s.take(i + 1) =~= p0.push(inst@));
        if inst.is_label() {
            if !cur.is_empty() {
                proof {
                    lemma_split_label_closes(done0, c0, p0, inst@);
                }
                let mut fresh: Vec<Instruction> = Vec::new();
                std::mem::swap(&mut fresh, &mut cur);
                ret.push(fresh);
                assert(nested_views(ret@) =~= done0.push(c0));
            } else {
                proof {
                    lemma_split_label_opens(done0, c0, p0, inst@);
                }
            }
            cur.push(inst.clone());
            assert(views(cur@) =~= seq![inst@]);
        } else if inst.is_control_inst() {
            proof {
                lemma_split_control(done0, c0, p0, inst@);
            }
            cur.push(inst.clone());
            let ghost c1 = views(cur@);
            assert(c1 =~= c0.push(inst@));
            let mut fresh: Vec<Instruction> = Vec::new();
            std::mem::swap(&mut fresh, &mut cur);
            ret.push(fresh);
            assert(nested_views(ret@) =~= done0.push(c1));
            assert(views(cur@) =~= seq![]);
        } else {
            proof {
                lemma_split_plain(done0, c0, p0, inst@);
            }
            cur.push(inst.clone());
            assert(views(cur@) =~= c0.push(inst@));
        }
        i += 1;
    }
    assert(s.take(instrs.len() as int) =~= s);
    if !cur.is_empty() {
        let ghost done0 = nested_views(ret@);
        let ghost c0 = views(cur@);
        proof {
            lemma_split_finish_open(done0, c0, s);
        }
        ret.push(cur);
        assert(nested_views(ret@) =~= done0.push(c0));
    } else {
        proof {
            lemma_split_finish_closed(nested_views(ret@), views(cur@), s);
        }
    }
    ret
}

/// The labels a `jmp` or `br` transfers control to.
fn control_targets(inst: &Instruction) -> (r: Vec<String>)
    ensures
        names(r) == inst@.targets(),
{
    match inst {
        Instruction::Opcode(op) => match op {
            OpcodeInstruction::Jmp { labels } => clone_names(labels),
            OpcodeInstruction::Br { labels, .. } => clone_names(labels),
            OpcodeInstruction::Call { .. } => Vec::new(),
            OpcodeInstruction::Const { .. } => Vec::new(),
            _ => {
                proof {
                    assert(op@.labels == Seq::<Seq<char>>::empty());
                }
                Vec::new()
            },
        },
        _ => Vec::new(),
    }
}

/// The label that opens a block, if one does.
fn opening_label(block: &Vec<Instruction>) -> (r: Option<String>)
    requires
        block@.len() > 0,
    ensures
        opt_name(r) == block_label(views(block@)),
{
    match &block[0] {
        Instruction::Label { label } => Some(label.clone()),
        _ => None,
    }
}

/// Block `j` is the last block opened by label `l`.
fn find_label_target(labels: &Vec<Option<String>>, l: &String) -> (r: Option<usize>)
    ensures
        r matches Some(j) ==> j < labels@.len() && opt_name(labels@[j as int]) == Some(l@) && forall|k: int|
            j < k < labels@.len() ==> opt_name(#[trigger] labels@[k]) != Some(l@),
        r is None ==> forall|k: int| 0 <= k < labels@.len() ==> opt_name(#[trigger] labels@[k]) != Some(l@),
{
    let mut k: usize = labels.len();
    while k > 0
        invariant
            k <= labels@.len(),
            forall|m: int| k <= m < labels@.len() ==> opt_name(#[trigger] labels@[m]) != Some(l@),
        decreases k,
    {
        k -= 1;
        match &labels[k] {
            Some(name) => {
                if *name == *l {
                    return Some(k);
                }
            },
            None => {},
        }
    }
    None
}

/// What the edge computation knows of the blocks: the label opening each
/// block and the labels each leaves through.
spec fn blocks_meta(bs: Seq<Seq<InstrView>>, labels: Seq<Option<String>>, outs: Seq<Vec<String>>) -> bool {
    &&& is_block_partition(bs)
    &&& labels.len() == bs.len()
    &&& outs.len() == bs.len()
    &&& forall|m: int| 0 <= m < bs.len() ==> opt_name(#[trigger] labels[m]) == block_label(bs[m])
    &&& forall|m: int| 0 <= m < bs.len() ==> names(#[trigger] outs[m]) == block_out_labels(bs, m)
}

proof fn lemma_label_target_unique(bs: Seq<Seq<InstrView>>, l: Seq<char>, j1: int, j2: int)
    requires
        is_label_target(bs, l, j1),
        is_label_target(bs, l, j2),
    ensures
        j1 == j2,
{
}

proof fn lemma_found_target(bs: Seq<Seq<InstrView>>, labels: Seq<Option<String>>, outs: Seq<Vec<String>>, l: Seq<char>, j: int)
    requires
        blocks_meta(bs, labels, outs),
        0 <= j < bs.len(),
        opt_name(labels[j]) == Some(l),
        forall|k: int| j < k < bs.len() ==> opt_name(#[trigger] labels[k]) != Some(l),
    ensures
        is_label_target(bs, l, j),
{
    assert forall|k: int| j < k < bs.len() implies block_label(bs[k]) != Some(l) by {
        assert(opt_name(labels[k]) != Some(l));
    }
}

proof fn lemma_no_target(bs: Seq<Seq<InstrView>>, labels: Seq<Option<String>>, outs: Seq<Vec<String>>, l: Seq<char>, b: int)
    requires
        blocks_meta(bs, labels, outs),
        forall|k: int| 0 <= k < bs.len() ==> opt_name(#[trigger] labels[k]) != Some(l),
    ensures
        !is_label_target(bs, l, b),
{
    if is_label_target(bs, l, b) {
        assert(opt_name(labels[b]) == block_label(bs[b]));
    }
}

/// The edges leaving block `k` through its out labels.
#[verifier::rlimit(40)]
fn label_edges(
    blocks: &Vec<Vec<Instruction>>,
    labels: &Vec<Option<String>>,
    outs: &Vec<Vec<String>>,
    k: usize,
    pairs: &mut Vec<(usize, usize)>,
)
    requires
        blocks_meta(nested_views(blocks@), labels@, outs@),
        k < blocks@.len(),
    ensures
        final(pairs)@.len() >= old(pairs)@.len(),
        forall|t: int| 0 <= t < old(pairs)@.len() ==> #[trigger] final(pairs)@[t] == old(pairs)@[t],
        forall|t: int| old(pairs)@.len() <= t < final(pairs)@.len() ==> (#[trigger] final(pairs)@[t]).0 == k
            && final(pairs)@[t].1 < blocks@.len()
            && cfg_edge(nested_views(blocks@), k as int, final(pairs)@[t].1 as int),
        forall|mm: int, b: int|
            0 <= mm < block_out_labels(nested_views(blocks@), k as int).len() && 0 <= b < blocks@.len()
                && #[trigger] is_label_target(nested_views(blocks@), block_out_labels(nested_views(blocks@), k as int)[mm], b)
                ==> exists|t: int| 0 <= t < final(pairs)@.len() && #[trigger] final(pairs)@[t] == (k, b as usize),
{
    let ghost bs = nested_views(blocks@);
    let ghost outk = block_out_labels(bs, k as int);
    let ghost pairs0 = pairs@;
    let n = blocks.len();
    assert(names(outs@[k as int]) == outk);
    assert(forall|m: int| 0 <= m < bs.len() ==> names(#[trigger] outs@[m]) == block_out_labels(bs, m));
    let mut m: usize = 0;
    while m < outs[k].len()
        invariant
            bs == nested_views(blocks@),
            n == blocks@.len(),
            blocks_meta(bs, labels@, outs@),
            k < n,
            outk == block_out_labels(bs, k as int),
            names(outs@[k as int]) == outk,
            m <= outs@[k as int]@.len(),
            pairs@.len() >= pairs0.len(),
            forall|t: int| 0 <= t < pairs0.len() ==> #[trigger] pairs@[t] == pairs0[t],
            forall|t: int| pairs0.len() <= t < pairs@.len() ==> (#[trigger] pairs@[t]).0 == k && pairs@[t].1 < n
                && cfg_edge(bs, k as int, pairs@[t].1 as int),
            forall|mm: int, b: int| 0 <= mm < m && 0 <= b < n && #[trigger] is_label_target(bs, outk[mm], b) ==> exists|t: int|
                0 <= t < pairs@.len() && #[trigger] pairs@[t] == (k, b as usize),
        decreases outs@[k as int]@.len() - m,
    {
        assert(outs@[k as int]@[m as int]@ == outk[m as int]);
        let found = find_label_target(labels, &outs[k][m]);
        match found {
            Some(j) => {
                proof {
                    lemma_found_target(bs, labels@, outs@, outk[m as int], j as int);
                }
                let ghost before = pairs@;
                pairs.push((k, j));
                assert(pairs@[pairs@.len() - 1] == (k, j));
                assert forall|mm: int, b: int| 0 <= mm < m + 1 && 0 <= b < n && #[trigger] is_label_target(bs, outk[mm], b) implies exists|t: int|
                    0 <= t < pairs@.len() && #[trigger] pairs@[t] == (k, b as usize) by {
                    if mm == m {
                        lemma_label_target_unique(bs, outk[mm], b, j as int);
                        assert(pairs@[pairs@.len() - 1] == (k, b as usize));
                    } else {
                        let t0 = choose|t: int| 0 <= t < before.len() && #[trigger] before[t] == (k, b as usize);
                        assert(pairs@[t0] == before[t0]);
                    }
                }
            },
            None => {
                assert forall|mm: int, b: int| 0 <= mm < m + 1 && 0 <= b < n && #[trigger] is_label_target(bs, outk[mm], b) implies exists|t: int|
                    0 <= t < pairs@.len() && #[trigger] pairs@[t] == (k, b as usize) by {
                    if mm == m {
                        lemma_no_target(bs, labels@, outs@, outk[mm], b);
                    }
                }
            },
        }
        m += 1;
    }
}

/// The opening label and the out labels of every block.
fn collect_block_labels(blocks: &Vec<Vec<Instruction>>) -> (r: (Vec<Option<String>>, Vec<Vec<String>>))
    requires
        is_block_partition(nested_views(blocks@)),
    ensures
        blocks_meta(nested_views(blocks@), r.0@, r.1@),
{
    let ghost bs = nested_views(blocks@);
    let n = blocks.len();
    let mut labels: Vec<Option<String>> = Vec::new();
    let mut outs: Vec<Vec<String>> = Vec::new();
    let mut k: usize = 0;
    while k < n
        invariant
            n == blocks@.len(),
            bs == nested_views(blocks@),
            is_block_partition(bs),
            k <= n,
            labels@.len() == k,
            outs@.len() == k,
            forall|m: int| 0 <= m < k ==> opt_name(#[trigger] labels@[m]) == block_label(bs[m]),
            forall|m: int| 0 <= m < k ==> names(#[trigger] outs@[m]) == block_out_labels(bs, m),
        decreases n - k,
    {
        assert(bs[k as int] == views(blocks@[k as int]@));
        assert(bs[k as int].len() > 0);
        labels.push(opening_label(&blocks[k]));
        let last = &blocks[k][blocks[k].len() - 1];
        assert(last@ == bs[k as int].last());
        if last.is_control_inst() {
            outs.push(control_targets(last));
        } else if k + 1 < n {
            assert(bs[k + 1] == views(blocks@[k + 1]@));
            assert(bs[k + 1].len() > 0);
            assert(bs[k + 1][0].is_label());
            let first = &blocks[k + 1][0];
            assert(first@ == bs[k + 1][0]);
            let mut out: Vec<String> = Vec::new();
            match first.get_result() {
                Some(name) => out.push(name),
                None => {},
            }
            assert(names(out) =~= block_out_labels(bs, k as int));
            outs.push(out);
        } else {
            let out: Vec<String> = Vec::new();
            assert(names(out) =~= block_out_labels(bs, k as int));
            outs.push(out);
        }
        k += 1;
    }
    (labels, outs)
}

/// All control-flow edges between the blocks, as (from, to) pairs.
#[verifier::rlimit(40)]
fn collect_edges(blocks: &Vec<Vec<Instruction>>, labels: &Vec<Option<String>>, outs: &Vec<Vec<String>>) -> (pairs: Vec<(usize, usize)>)
    requires
        blocks_meta(nested_views(blocks@), labels@, outs@),
    ensures
        forall|t: int| 0 <= t < pairs@.len() ==> (#[trigger] pairs@[t]).0 < blocks@.len() && pairs@[t].1 < blocks@.len()
            && cfg_edge(nested_views(blocks@), pairs@[t].0 as int, pairs@[t].1 as int),
        forall|a: int, b: int| 0 <= a < blocks@.len() && 0 <= b < blocks@.len() && #[trigger] cfg_edge(nested_views(blocks@), a, b)
            ==> exists|t: int| 0 <= t < pairs@.len() && #[trigger] pairs@[t] == (a as usize, b as usize),
{
    let ghost bs = nested_views(blocks@);
    let n = blocks.len();
    let mut pairs: Vec<(usize, usize)> = Vec::new();
    let mut k: usize = 0;
    while k < n
        invariant
            n == blocks@.len(),
            bs == nested_views(blocks@),
            blocks_meta(bs, labels@, outs@),
            k <= n,
            forall|t: int| 0 <= t < pairs@.len() ==> (#[trigger] pairs@[t]).0 < k && pairs@[t].1 < n
                && cfg_edge(bs, pairs@[t].0 as int, pairs@[t].1 as int),
            forall|a: int, b: int| 0 <= a < k && 0 <= b < n && #[trigger] cfg_edge(bs, a, b) ==> exists|t: int|
                0 <= t < pairs@.len() && #[trigger] pairs@[t] == (a as usize, b as usize),
        decreases n - k,
    {
        let ghost pairs0 = pairs@;
        label_edges(blocks, labels, outs, k, &mut pairs);
        let ghost pairs1 = pairs@;
        assert(bs[k as int] == views(blocks@[k as int]@));
        assert(bs[k as int].len() > 0);
        let last = &blocks[k][blocks[k].len() - 1];
        assert(last@ == bs[k as int].last());
        if k + 1 < n && !last.is_control_inst() {
            pairs.push((k, k + 1));
            assert(pairs@[pairs@.len() - 1] == (k, (k + 1) as usize));
        }
        assert forall|t: int| 0 <= t < pairs@.len() implies (#[trigger] pairs@[t]).0 < k + 1 && pairs@[t].1 < n
            && cfg_edge(bs, pairs@[t].0 as int, pairs@[t].1 as int) by {
            if t < pairs1.len() {
                assert(pairs@[t] == pairs1[t]);
                if t < pairs0.len() {
                    assert(pairs1[t] == pairs0[t]);
                }
            }
        }
        assert forall|a: int, b: int| 0 <= a < k + 1 && 0 <= b < n && #[trigger] cfg_edge(bs, a, b) implies exists|t: int|
            0 <= t < pairs@.len() && #[trigger] pairs@[t] == (a as usize, b as usize) by {
            if a < k {
                let t0 = choose|t: int| 0 <= t < pairs0.len() && #[trigger] pairs0[t] == (a as usize, b as usize);
                assert(pairs1[t0] == pairs0[t0]);
                assert(pairs@[t0] == pairs1[t0]);
            } else if falls_through(bs, a) && b == a + 1 {
                assert(pairs@[pairs@.len() - 1] == (a as usize, b as usize));
            } else {
                let mm = choose|mm: int| 0 <= mm < block_out_labels(bs, a).len() && is_label_target(bs, #[trigger] block_out_labels(bs, a)[mm], b);
                assert(is_label_target(bs, block_out_labels(bs, k as int)[mm], b));
                let t1 = choose|t: int| 0 <= t < pairs1.len() && #[trigger] pairs1[t] == (k, b as usize);
                assert(pairs@[t1] == pairs1[t1]);
            }
        }
        k += 1;
    }
    pairs
}

/// The successors and predecessors of block `k` among the edge pairs.
fn edge_sets(pairs: &Vec<(usize, usize)>, k: usize) -> (r: (HashSet<usize>, HashSet<usize>))
    ensures
        forall|j: usize| (#[trigger] r.0@.contains(j)) <==> exists|u: int| 0 <= u < pairs@.len() && #[trigger] pairs@[u] == (k, j),
        forall|j: usize| (#[trigger] r.1@.contains(j)) <==> exists|u: int| 0 <= u < pairs@.len() && #[trigger] pairs@[u] == (j, k),
{
    broadcast use vstd::std_specs::hash::group_hash_axioms;

    let mut outset: HashSet<usize> = HashSet::new();
    let mut inset: HashSet<usize> = HashSet::new();
    let mut t: usize = 0;
    while t < pairs.len()
        invariant
            t <= pairs@.len(),
            forall|j: usize| (#[trigger] outset@.contains(j)) <==> exists|u: int|
                0 <= u < t && #[trigger] pairs@[u] == (k, j),
            forall|j: usize| (#[trigger] inset@.contains(j)) <==> exists|u: int|
                0 <= u < t && #[trigger] pairs@[u] == (j, k),
        decreases pairs@.len() - t,
    {
        let (a, b) = pairs[t];
        if a == k {
            outset.insert(b);
        }
        if b == k {
            inset.insert(a);
        }
        assert forall|j: usize| (#[trigger] outset@.contains(j)) <==> exists|u: int|
            0 <= u < t + 1 && #[trigger] pairs@[u] == (k, j) by {
            if exists|u: int| 0 <= u < t + 1 && #[trigger] pairs@[u] == (k, j) {
                let u = choose|u: int| 0 <= u < t + 1 && #[trigger] pairs@[u] == (k, j);
                if u == t {
                } else {
                }
            }
            if outset@.contains(j) && !(exists|u: int| 0 <= u < t && #[trigger] pairs@[u] == (k, j)) {
                assert(pairs@[t as int] == (k, j));
            }
        }
        assert forall|j: usize| (#[trigger] inset@.contains(j)) <==> exists|u: int|
            0 <= u < t + 1 && #[trigger] pairs@[u] == (j, k) by {
            if exists|u: int| 0 <= u < t + 1 && #[trigger] pairs@[u] == (j, k) {
                let u = choose|u: int| 0 <= u < t + 1 && #[trigger] pairs@[u] == (j, k);
                if u == t {
                } else {
                }
            }
            if inset@.contains(j) && !(exists|u: int| 0 <= u < t && #[trigger] pairs@[u] == (j, k)) {
                assert(pairs@[t as int] == (j, k));
            }
        }
        t += 1;
    }
    (outset, inset)
}

/// `r` is the list of basic blocks of the instructions `instrs`, as
/// `Function::get_basic_blocks` builds it.
pub open spec fn is_block_list(r: Seq<BasicBlock>, instrs: Seq<InstrView>) -> bool {
    &&& block_views(r) == block_partition(instrs)
    &&& is_block_partition(block_views(r))
    &&& forall|k: int|
        0 <= k < r.len() ==> {
            let bs = block_views(r);
            &&& opt_name(#[trigger] r[k].label) == block_label(bs[k])
            &&& names(r[k].out_labels) == block_out_labels(bs, k)
            &&& r[k].immediate_dominator_index == 0
        }
    &&& forall|k: int, j: usize|
        0 <= k < r.len() ==> ((#[trigger] r[k].out_bb_indices@.contains(j)) <==> j < r.len() && cfg_edge(block_views(r), k, j as int))
    &&& forall|k: int, j: usize|
        0 <= k < r.len() ==> ((#[trigger] r[k].in_bb_indices@.contains(j)) <==> j < r.len() && cfg_edge(block_views(r), j as int, k))
}

impl Function {
    /// Cuts the body into basic blocks and links them: each block records
    /// the label that opens it, the labels it leaves through, and the
    /// indices of its predecessor and successor blocks. The instructions in
    /// the blocks are copies.
    pub fn get_basic_blocks(&self) -> (r: Vec<BasicBlock>)
        ensures
            block_views(r@) == block_partition(views(self.instrs@)),
            block_views(r@).flatten() == views(self.instrs@),
            is_block_partition(block_views(r@)),
            forall|k: int|
                0 <= k < r@.len() ==> {
                    let bs = block_views(r@);
                    &&& opt_name(#[trigger] r@[k].label) == block_label(bs[k])
                    &&& names(r@[k].out_labels) == block_out_labels(bs, k)
                    &&& r@[k].immediate_dominator_index == 0
                },
            forall|k: int, j: usize|
                0 <= k < r@.len() ==> ((#[trigger] r@[k].out_bb_indices@.contains(j)) <==> j < r@.len()
                    && cfg_edge(block_views(r@), k, j as int)),
            forall|k: int, j: usize|
                0 <= k < r@.len() ==> ((#[trigger] r@[k].in_bb_indices@.contains(j)) <==> j < r@.len()
                    && cfg_edge(block_views(r@), j as int, k)),
    {
        let mut blocks = split_blocks(&self.instrs);
        let n = blocks.len();
        let ghost bs = nested_views(blocks@);
        let (labels, outs) = collect_block_labels(&blocks);
        let pairs = collect_edges(&blocks, &labels, &outs);

        let mut ret: Vec<BasicBlock> = Vec::new();
        let mut k: usize = 0;
        while k < n
            invariant
                n == blocks@.len(),
                bs.len() == n,
                blocks_meta(bs, labels@, outs@),
                k <= n,
                ret@.len() == k,
                forall|m: int| k <= m < n ==> views(#[trigger] blocks@[m]@) == bs[m],
                forall|m: int| 0 <= m < k ==> (#[trigger] ret@[m]).ins() == bs[m],
                forall|m: int| 0 <= m < k ==> opt_name(#[trigger] ret@[m].label) == block_label(bs[m]),
                forall|m: int| 0 <= m < k ==> names(#[trigger] ret@[m].out_labels) == block_out_labels(bs, m),
                forall|m: int| 0 <= m < k ==> (#[trigger] ret@[m]).immediate_dominator_index == 0,
                forall|m: int, j: usize| 0 <= m < k ==> ((#[trigger] ret@[m].out_bb_indices@.contains(j)) <==> exists|t: int|
                    0 <= t < pairs@.len() && #[trigger] pairs@[t] == (m as usize, j)),
                forall|m: int, j: usize| 0 <= m < k ==> ((#[trigger] ret@[m].in_bb_indices@.contains(j)) <==> exists|t: int|
                    0 <= t < pairs@.len() && #[trigger] pairs@[t] == (j, m as usize)),
            decreases n - k,
        {
            let (outset, inset) = edge_sets(&pairs, k);
            let mut instrs: Vec<Instruction> = Vec::new();
            std::mem::swap(&mut instrs, &mut blocks[k]);
            assert(opt_name(labels@[k as int]) == block_label(bs[k as int]));
            let label = match &labels[k] {
                Some(l) => Some(l.clone()),
                None => None,
            };
            assert(names(outs@[k as int]) == block_out_labels(bs, k as int));
            let out_labels = clone_names(&outs[k]);
            let bb = BasicBlock {
                instrs,
                label,
                out_labels,
                in_bb_indices: inset,
                out_bb_indices: outset,
                immediate_dominator_index: 0,
            };
            ret.push(bb);
            k += 1;
        }
        proof {
            assert(block_views(ret@) =~= bs);
            lemma_is_the_partition(bs, views(self.instrs@));
        }
        ret
    }
}

/// In blocks linked as `get_basic_blocks` links them, block `k` lists `j`
/// among its successors exactly when `j` lists `k` among its predecessors.
pub proof fn lemma_edges_agree(bbs: Seq<BasicBlock>, k: usize, j: usize)
    requires
        forall|m: int, p: usize|
            0 <= m < bbs.len() ==> ((#[trigger] bbs[m].out_bb_indices@.contains(p)) <==> p < bbs.len() && cfg_edge(
                block_views(bbs),
                m,
                p as int,
            )),
        forall|m: int, p: usize|
            0 <= m < bbs.len() ==> ((#[trigger] bbs[m].in_bb_indices@.contains(p)) <==> p < bbs.len() && cfg_edge(
                block_views(bbs),
                p as int,
                m,
            )),
        k < bbs.len(),
        j < bbs.len(),
    ensures
        bbs[k as int].out_bb_indices@.contains(j) <==> bbs[j as int].in_bb_indices@.contains(k),
{
}

} // verus!
