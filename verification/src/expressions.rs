//! The shared value/place/operand/rvalue vocabulary of the IR.
//!
//! Both the unstructured (basic-block) and the structured representation build
//! on these types.  A `Place` is an addressable location: a variable plus a
//! projection path.  An `Operand` reads a place (by copy or by move) or is a
//! constant.  An `Rvalue` is a side-effect-free computation producing a value.
//!
//! Every type with sequence-valued fields has a mathematical mirror (its
//! `View`) over `Seq`, which the contracts of the transformation passes speak
//! about.

use vstd::prelude::*;

verus! {

/// Identifier of a local variable.
pub type VarId = usize;

/// Identifier of a field of a struct, tuple or enum variant.
pub type FieldId = usize;

/// Identifier of an enum variant.
pub type VariantId = usize;

/// Identifier of a type declaration.
pub type TypeDefId = usize;

/// The integer types of the IR.
#[derive(Debug, Clone, Copy, PartialEq, Eq, Structural)]
pub enum IntegerTy {
    Isize,
    I8,
    I16,
    I32,
    I64,
    I128,
    Usize,
    U8,
    U16,
    U32,
    U64,
    U128,
}

/// A literal integer together with its type.  Pointer-sized values are stored
/// in 64 bits.
#[derive(Debug, Clone, Copy, PartialEq, Eq, Structural)]
pub enum ScalarValue {
    Isize(i64),
    I8(i8),
    I16(i16),
    I32(i32),
    I64(i64),
    I128(i128),
    Usize(u64),
    U8(u8),
    U16(u16),
    U32(u32),
    U64(u64),
    U128(u128),
}

/// A literal value.
#[derive(Debug, Clone, Copy, PartialEq, Eq, Structural)]
pub enum ConstantValue {
    Scalar(ScalarValue),
    Bool(bool),
    Char(char),
}

/// A type annotation, as supplied by the upstream producer.  The passes never
/// compute with types; they only carry them along, so a shallow summary of the
/// type is all that is kept.
#[derive(Debug, Clone, Copy, PartialEq, Eq, Structural)]
pub enum ETy {
    Bool,
    Char,
    Integer(IntegerTy),
    Adt(TypeDefId),
    Tuple,
    Unit,
}

/// An erased lifetime marker.
#[derive(Debug, Clone, Copy, PartialEq, Eq, Structural)]
pub enum ErasedRegion {
    Erased,
}

/// One step of a projection path.
#[derive(Debug, Clone, Copy, PartialEq, Eq, Structural)]
pub enum ProjectionElem {
    /// Dereference a shared or mutable reference.
    Deref,
    /// Dereference a boxed value.
    DerefBox,
    /// Project to a field of a struct, tuple or enum variant.
    Field(FieldProjKind, FieldId),
    /// Downcast an enumeration to a specific variant.
    Downcast(VariantId),
}

/// What kind of aggregate a field projection goes through.
#[derive(Debug, Clone, Copy, PartialEq, Eq, Structural)]
pub enum FieldProjKind {
    Adt(TypeDefId, Option<VariantId>),
    /// Projection out of a tuple; the payload is the tuple arity.
    Tuple(usize),
}

/// The kinds of borrows.
#[derive(Debug, Clone, Copy, PartialEq, Eq, Structural)]
pub enum BorrowKind {
    Shared,
    Mut,
    TwoPhaseMut,
}

/// Unary operations.
#[derive(Debug, Clone, Copy, PartialEq, Eq, Structural)]
pub enum UnOp {
    Not,
    Neg,
}

/// Binary operations.  `Div` and `Rem` can fail on a zero divisor;
/// `Add`, `Sub`, `Mul`, `Shl` and `Shr` can overflow.
#[derive(Debug, Clone, Copy, PartialEq, Eq, Structural)]
pub enum BinOp {
    BitXor,
    BitAnd,
    BitOr,
    Eq,
    Lt,
    Le,
    Ne,
    Ge,
    Gt,
    Div,
    Rem,
    Add,
    Sub,
    Mul,
    Shl,
    Shr,
}

/// A projection path.
pub type Projection = Vec<ProjectionElem>;

/// An addressable memory location: a variable plus a projection path.
#[derive(Debug)]
pub struct Place {
    pub var_id: VarId,
    pub projection: Projection,
}

/// Mathematical mirror of [`Place`].
#[verifier::ext_equal]
pub struct PlaceS {
    pub var_id: VarId,
    pub projection: Seq<ProjectionElem>,
}

impl View for Place {
    type V = PlaceS;

    open spec fn view(&self) -> PlaceS {
        PlaceS { var_id: self.var_id, projection: self.projection@ }
    }
}

impl Clone for Place {
    fn clone(&self) -> (r: Self)
        ensures
            r@ == self@,
    {
        let mut projection: Projection = Vec::new();
        let mut i: usize = 0;
        while i < self.projection.len()
            invariant
                i <= self.projection.len(),
                projection@ =~= self.projection@.take(i as int),
            decreases self.projection.len() - i,
        {
            projection.push(self.projection[i]);
            i = i + 1;
        }
        proof {
            assert(projection@ =~= self.projection@);
        }
        Place { var_id: self.var_id, projection }
    }
}

impl PartialEq for Place {
    fn eq(&self, other: &Self) -> (r: bool) {
        if self.var_id != other.var_id {
            return false;
        }
        if self.projection.len() != other.projection.len() {
            return false;
        }
        let mut i: usize = 0;
        while i < self.projection.len()
            invariant
                i <= self.projection.len(),
                self.projection.len() == other.projection.len(),
                self.var_id == other.var_id,
                forall|j: int| 0 <= j < i ==> self.projection@[j] == other.projection@[j],
            decreases self.projection.len() - i,
        {
            if self.projection[i] != other.projection[i] {
                return false;
            }
            i = i + 1;
        }
        proof {
            assert(self.projection@ =~= other.projection@);
        }
        true
    }
}

impl vstd::std_specs::cmp::PartialEqSpecImpl for Place {
    open spec fn obeys_eq_spec() -> bool {
        true
    }

    open spec fn eq_spec(&self, other: &Place) -> bool {
        self@ == other@
    }
}

impl Eq for Place {}

/// An operand: the only way rvalues and terminators reference data.
#[derive(Debug)]
pub enum Operand {
    /// Read a place without consuming it.
    Copy(Place),
    /// Read a place, consuming it.
    Move(Place),
    /// A literal or constant value, with its type.
    Constant(ETy, OperandConstantValue),
}

/// A constant operand.  Degenerate aggregates (a struct with no fields, an
/// enum with a single field-less variant) and unit are constants here.
#[derive(Debug, Clone, Copy, PartialEq, Eq, Structural)]
pub enum OperandConstantValue {
    ConstantValue(ConstantValue),
    /// Enumeration with one field-less variant, or structure with no fields.
    Adt(TypeDefId),
    /// Unit, encoded upstream as a zero-tuple.
    Unit,
}

/// Mathematical mirror of [`Operand`].
#[verifier::ext_equal]
pub enum OperandS {
    Copy(PlaceS),
    Move(PlaceS),
    Constant(ETy, OperandConstantValue),
}

impl View for Operand {
    type V = OperandS;

    open spec fn view(&self) -> OperandS {
        match self {
            Operand::Copy(p) => OperandS::Copy(p@),
            Operand::Move(p) => OperandS::Move(p@),
            Operand::Constant(ty, c) => OperandS::Constant(*ty, *c),
        }
    }
}

impl Clone for Operand {
    fn clone(&self) -> (r: Self)
        ensures
            r@ == self@,
    {
        match self {
            Operand::Copy(p) => Operand::Copy(p.clone()),
            Operand::Move(p) => Operand::Move(p.clone()),
            Operand::Constant(ty, c) => Operand::Constant(*ty, *c),
        }
    }
}

/// What kind of aggregate an [`Rvalue::Aggregate`] builds.
#[derive(Debug, Clone, Copy, PartialEq, Eq, Structural)]
pub enum AggregateKind {
    Tuple,
    Adt(TypeDefId, Option<VariantId>),
}

/// A computation producing a value to be assigned.
#[derive(Debug)]
pub enum Rvalue {
    Use(Operand),
    Ref(Place, BorrowKind),
    UnaryOp(UnOp, Operand),
    /// A binary operation as emitted by the upstream producer.  For the
    /// fallible operations the producer always guards the operation with an
    /// explicit three-statement check sequence.
    BinaryOp(BinOp, Operand, Operand),
    /// A binary operation whose explicit guard has been discharged by the
    /// simplifier.  It is implicitly fallible: at runtime it aborts the
    /// program on overflow or on a zero divisor, without a separate check in
    /// the tree.
    FallibleBinaryOp(BinOp, Operand, Operand),
    /// Read the discriminant of an enumeration value.
    Discriminant(Place),
    /// Build a tuple or an ADT variant from a list of fields.
    Aggregate(AggregateKind, Vec<Operand>),
}

/// Mathematical mirror of [`Rvalue`].
#[verifier::ext_equal]
pub enum RvalueS {
    Use(OperandS),
    Ref(PlaceS, BorrowKind),
    UnaryOp(UnOp, OperandS),
    BinaryOp(BinOp, OperandS, OperandS),
    FallibleBinaryOp(BinOp, OperandS, OperandS),
    Discriminant(PlaceS),
    Aggregate(AggregateKind, Seq<OperandS>),
}

/// The views of a list of operands.
pub open spec fn operands_view(ops: Seq<Operand>) -> Seq<OperandS> {
    ops.map_values(|op: Operand| op@)
}

impl View for Rvalue {
    type V = RvalueS;

    open spec fn view(&self) -> RvalueS {
        match self {
            Rvalue::Use(op) => RvalueS::Use(op@),
            Rvalue::Ref(p, bk) => RvalueS::Ref(p@, *bk),
            Rvalue::UnaryOp(unop, op) => RvalueS::UnaryOp(*unop, op@),
            Rvalue::BinaryOp(binop, op1, op2) => RvalueS::BinaryOp(*binop, op1@, op2@),
            Rvalue::FallibleBinaryOp(binop, op1, op2) => RvalueS::FallibleBinaryOp(
                *binop,
                op1@,
                op2@,
            ),
            Rvalue::Discriminant(p) => RvalueS::Discriminant(p@),
            Rvalue::Aggregate(kind, ops) => RvalueS::Aggregate(*kind, operands_view(ops@)),
        }
    }
}

/// Clones a list of operands.
pub(crate) fn clone_operands(ops: &Vec<Operand>) -> (r: Vec<Operand>)
    ensures
        operands_view(r@) == operands_view(ops@),
{
    let mut out: Vec<Operand> = Vec::new();
    let mut i: usize = 0;
    while i < ops.len()
        invariant
            i <= ops.len(),
            out@.len() == i,
            forall|j: int| 0 <= j < i ==> out@[j]@ == ops@[j]@,
        decreases ops.len() - i,
    {
        out.push(ops[i].clone());
        i = i + 1;
    }
    proof {
        assert(operands_view(out@) =~= operands_view(ops@));
    }
    out
}

impl Clone for Rvalue {
    fn clone(&self) -> (r: Self)
        ensures
            r@ == self@,
    {
        match self {
            Rvalue::Use(op) => Rvalue::Use(op.clone()),
            Rvalue::Ref(p, bk) => Rvalue::Ref(p.clone(), *bk),
            Rvalue::UnaryOp(unop, op) => Rvalue::UnaryOp(*unop, op.clone()),
            Rvalue::BinaryOp(binop, op1, op2) => Rvalue::BinaryOp(
                *binop,
                op1.clone(),
                op2.clone(),
            ),
            Rvalue::FallibleBinaryOp(binop, op1, op2) => Rvalue::FallibleBinaryOp(
                *binop,
                op1.clone(),
                op2.clone(),
            ),
            Rvalue::Discriminant(p) => Rvalue::Discriminant(p.clone()),
            Rvalue::Aggregate(kind, ops) => Rvalue::Aggregate(*kind, clone_operands(ops)),
        }
    }
}

impl ScalarValue {
    /// True iff the scalar is of a signed integer type.
    pub fn is_int(&self) -> (r: bool)
        ensures
            r == self.is_int_spec(),
    {
        match self {
            ScalarValue::Isize(_) => true,
            ScalarValue::I8(_) => true,
            ScalarValue::I16(_) => true,
            ScalarValue::I32(_) => true,
            ScalarValue::I64(_) => true,
            ScalarValue::I128(_) => true,
            _ => false,
        }
    }

    /// Whether the scalar is of a signed integer type.
    pub open spec fn is_int_spec(&self) -> bool {
        self matches ScalarValue::Isize(_) || self matches ScalarValue::I8(_) || self
            matches ScalarValue::I16(_) || self matches ScalarValue::I32(_) || self
            matches ScalarValue::I64(_) || self matches ScalarValue::I128(_)
    }

    /// The mathematical value of the scalar.
    pub open spec fn value_spec(&self) -> int {
        match self {
            ScalarValue::Isize(v) => *v as int,
            ScalarValue::I8(v) => *v as int,
            ScalarValue::I16(v) => *v as int,
            ScalarValue::I32(v) => *v as int,
            ScalarValue::I64(v) => *v as int,
            ScalarValue::I128(v) => *v as int,
            ScalarValue::Usize(v) => *v as int,
            ScalarValue::U8(v) => *v as int,
            ScalarValue::U16(v) => *v as int,
            ScalarValue::U32(v) => *v as int,
            ScalarValue::U64(v) => *v as int,
            ScalarValue::U128(v) => *v as int,
        }
    }

    /// The value of a signed scalar, or `None` for an unsigned one.
    pub fn as_int(&self) -> (r: Option<i128>)
        ensures
            r matches Some(v) <==> self.is_int_spec(),
            r matches Some(v) ==> v as int == self.value_spec(),
    {
        match self {
            ScalarValue::Isize(v) => Some(*v as i128),
            ScalarValue::I8(v) => Some(*v as i128),
            ScalarValue::I16(v) => Some(*v as i128),
            ScalarValue::I32(v) => Some(*v as i128),
            ScalarValue::I64(v) => Some(*v as i128),
            ScalarValue::I128(v) => Some(*v),
            _ => None,
        }
    }

    /// The value of an unsigned scalar, or `None` for a signed one.
    pub fn as_uint(&self) -> (r: Option<u128>)
        ensures
            r matches Some(v) <==> !self.is_int_spec(),
            r matches Some(v) ==> v as int == self.value_spec(),
    {
        match self {
            ScalarValue::Usize(v) => Some(*v as u128),
            ScalarValue::U8(v) => Some(*v as u128),
            ScalarValue::U16(v) => Some(*v as u128),
            ScalarValue::U32(v) => Some(*v as u128),
            ScalarValue::U64(v) => Some(*v as u128),
            ScalarValue::U128(v) => Some(*v),
            _ => None,
        }
    }

}

/// Interprets `low`, a residue modulo `modulus`, as a two's-complement value.
pub open spec fn sign_val(low: int, modulus: int) -> int {
    if low >= modulus / 2 {
        low - modulus
    } else {
        low
    }
}

/// The scalar of type `ty` whose two's-complement bit pattern is the low bits
/// of `bits`.
pub open spec fn scalar_of_bits_spec(ty: IntegerTy, bits: u128) -> ScalarValue {
    match ty {
        IntegerTy::U8 => ScalarValue::U8((bits as int % 0x100) as u8),
        IntegerTy::U16 => ScalarValue::U16((bits as int % 0x1_0000) as u16),
        IntegerTy::U32 => ScalarValue::U32((bits as int % 0x1_0000_0000) as u32),
        IntegerTy::U64 => ScalarValue::U64((bits as int % 0x1_0000_0000_0000_0000) as u64),
        IntegerTy::Usize => ScalarValue::Usize((bits as int % 0x1_0000_0000_0000_0000) as u64),
        IntegerTy::U128 => ScalarValue::U128(bits),
        IntegerTy::I8 => ScalarValue::I8(sign_val(bits as int % 0x100, 0x100) as i8),
        IntegerTy::I16 => ScalarValue::I16(sign_val(bits as int % 0x1_0000, 0x1_0000) as i16),
        IntegerTy::I32 => ScalarValue::I32(
            sign_val(bits as int % 0x1_0000_0000, 0x1_0000_0000) as i32,
        ),
        IntegerTy::I64 => ScalarValue::I64(
            sign_val(bits as int % 0x1_0000_0000_0000_0000, 0x1_0000_0000_0000_0000) as i64,
        ),
        IntegerTy::Isize => ScalarValue::Isize(
            sign_val(bits as int % 0x1_0000_0000_0000_0000, 0x1_0000_0000_0000_0000) as i64,
        ),
        IntegerTy::I128 => ScalarValue::I128(
            sign_val(bits as int, 0x1_0000_0000_0000_0000_0000_0000_0000_0000int) as i128,
        ),
    }
}

/// Decodes the raw bit pattern of a switch value, as stored in the
/// unstructured representation, into a typed scalar.
pub fn scalar_of_bits(ty: IntegerTy, bits: u128) -> (r: ScalarValue)
    ensures
        r == scalar_of_bits_spec(ty, bits),
{
    match ty {
        IntegerTy::U8 => ScalarValue::U8((bits % 0x100) as u8),
        IntegerTy::U16 => ScalarValue::U16((bits % 0x1_0000) as u16),
        IntegerTy::U32 => ScalarValue::U32((bits % 0x1_0000_0000) as u32),
        IntegerTy::U64 => ScalarValue::U64((bits % 0x1_0000_0000_0000_0000) as u64),
        IntegerTy::Usize => ScalarValue::Usize((bits % 0x1_0000_0000_0000_0000) as u64),
        IntegerTy::U128 => ScalarValue::U128(bits),
        IntegerTy::I8 => {
            let m: u128 = bits % 0x100;
            if m >= 0x80 {
                ScalarValue::I8(((m as i128) - 0x100) as i8)
            } else {
                ScalarValue::I8(m as i8)
            }
        },
        IntegerTy::I16 => {
            let m: u128 = bits % 0x1_0000;
            if m >= 0x8000 {
                ScalarValue::I16(((m as i128) - 0x1_0000) as i16)
            } else {
                ScalarValue::I16(m as i16)
            }
        },
        IntegerTy::I32 => {
            let m: u128 = bits % 0x1_0000_0000;
            if m >= 0x8000_0000 {
                ScalarValue::I32(((m as i128) - 0x1_0000_0000) as i32)
            } else {
                ScalarValue::I32(m as i32)
            }
        },
        IntegerTy::I64 => {
            let m: u128 = bits % 0x1_0000_0000_0000_0000;
            if m >= 0x8000_0000_0000_0000 {
                ScalarValue::I64(((m as i128) - 0x1_0000_0000_0000_0000) as i64)
            } else {
                ScalarValue::I64(m as i64)
            }
        },
        IntegerTy::Isize => {
            let m: u128 = bits % 0x1_0000_0000_0000_0000;
            if m >= 0x8000_0000_0000_0000 {
                ScalarValue::Isize(((m as i128) - 0x1_0000_0000_0000_0000) as i64)
            } else {
                ScalarValue::Isize(m as i64)
            }
        },
        IntegerTy::I128 => {
            let half: i128 = 0x4000_0000_0000_0000_0000_0000_0000_0000i128;
            if bits >= 0x8000_0000_0000_0000_0000_0000_0000_0000u128 {
                let down: u128 = bits - 0x8000_0000_0000_0000_0000_0000_0000_0000u128;
                ScalarValue::I128(((down as i128) - half) - half)
            } else {
                ScalarValue::I128(bits as i128)
            }
        },
    }
}

} // verus!
