//! Value kinds, scalar payloads, display hints and the error taxonomy.

use vstd::prelude::*;

verus! {

/// Kind tag of a setting node.
///
/// `TypeNone` never occurs in a well-formed tree; it is reported by
/// [`crate::tree::Setting::get_type`] for a stale handle.
#[derive(Clone, Copy, Debug, PartialEq, Eq, Structural)]
pub enum LibType {
    TypeNone,
    TypeInt,
    TypeInt64,
    TypeFloat,
    TypeString,
    TypeBoolean,
    TypeGroup,
    TypeArray,
    TypeList,
}

impl LibType {
    /// A scalar kind holds a single value and never has children.
    pub open spec fn spec_is_scalar(self) -> bool {
        self == LibType::TypeInt || self == LibType::TypeInt64 || self == LibType::TypeFloat
            || self == LibType::TypeString || self == LibType::TypeBoolean
    }

    /// An aggregate kind holds an ordered sequence of children.
    pub open spec fn spec_is_aggregate(self) -> bool {
        self == LibType::TypeGroup || self == LibType::TypeArray || self == LibType::TypeList
    }

    /// Executable test for a scalar kind.
    #[verifier::when_used_as_spec(spec_is_scalar)]
    pub fn is_scalar(self) -> (r: bool)
        ensures
            r == self.spec_is_scalar(),
    {
        match self {
            LibType::TypeInt | LibType::TypeInt64 | LibType::TypeFloat | LibType::TypeString
                | LibType::TypeBoolean => true,
            _ => false,
        }
    }

    /// Executable test for an aggregate kind.
    #[verifier::when_used_as_spec(spec_is_aggregate)]
    pub fn is_aggregate(self) -> (r: bool)
        ensures
            r == self.spec_is_aggregate(),
    {
        match self {
            LibType::TypeGroup | LibType::TypeArray | LibType::TypeList => true,
            _ => false,
        }
    }
}

/// Display hint for integer serialization.  `FormatHex` renders the
/// value in hexadecimal on write-back; it never changes the stored value.
#[derive(Clone, Copy, Debug, PartialEq, Eq, Structural)]
pub enum Format {
    FormatDefault,
    FormatHex,
}

/// The error taxonomy.  Every fallible operation reports its failure
/// distinctly; nothing is silently swallowed except by the best-effort
/// `lookup_*` family, which maps `NotFound` and `TypeMismatch` to `None`.
#[derive(Clone, Copy, Debug, PartialEq, Eq, Structural)]
pub enum LibconfigError {
    /// Malformed source text, with 1-based line and column.
    SyntaxError { line: usize, col: usize },
    /// A path, name or index addressed nothing.
    NotFound,
    /// A typed read asked for a kind the node cannot supply.
    TypeMismatch,
    /// A mutation or insertion clashed with the node's declared kind.
    KindMismatch,
    /// A numeric narrowing would lose the value.
    Overflow,
    /// A group already has a child of the given name.
    DuplicateName,
    /// A child operation was applied to a scalar node.
    NotAggregate,
    /// The operation is meaningless for the node's kind.
    NotApplicable,
    /// A name given to `add` is not a valid setting name.
    InvalidName,
    /// An include directive named a file that could not be resolved.
    IncludeNotFound,
    /// The underlying file access failed.
    IoError,
    /// The node, or an ancestor of it, has been removed.
    StaleReference,
}

/// Scalar payload of a setting node.
///
/// A floating-point value is carried as its literal text exactly as it
/// stands in the configuration source, so that write-back reproduces it;
/// numeric conversion is left to the caller.
#[derive(Debug)]
pub enum Value {
    IntVal(i32),
    Int64Val(i64),
    FloatVal(String),
    StrVal(String),
    BoolVal(bool),
}

/// Mathematical model of a scalar payload.
pub enum ValueV {
    IntV(int),
    Int64V(int),
    FloatV(Seq<char>),
    StrV(Seq<char>),
    BoolV(bool),
}

impl View for Value {
    type V = ValueV;

    open spec fn view(&self) -> ValueV {
        match self {
            Value::IntVal(n) => ValueV::IntV(*n as int),
            Value::Int64Val(n) => ValueV::Int64V(*n as int),
            Value::FloatVal(t) => ValueV::FloatV(t@),
            Value::StrVal(s) => ValueV::StrV(s@),
            Value::BoolVal(b) => ValueV::BoolV(*b),
        }
    }
}

impl Value {
    /// The kind a payload belongs to.
    pub open spec fn spec_kind(&self) -> LibType {
        match self {
            Value::IntVal(_) => LibType::TypeInt,
            Value::Int64Val(_) => LibType::TypeInt64,
            Value::FloatVal(_) => LibType::TypeFloat,
            Value::StrVal(_) => LibType::TypeString,
            Value::BoolVal(_) => LibType::TypeBoolean,
        }
    }

    /// Executable kind tag of a payload.
    #[verifier::when_used_as_spec(spec_kind)]
    pub fn kind(&self) -> (k: LibType)
        ensures
            k == self.spec_kind(),
    {
        match self {
            Value::IntVal(_) => LibType::TypeInt,
            Value::Int64Val(_) => LibType::TypeInt64,
            Value::FloatVal(_) => LibType::TypeFloat,
            Value::StrVal(_) => LibType::TypeString,
            Value::BoolVal(_) => LibType::TypeBoolean,
        }
    }

    /// A copy of the payload, equal to the original.
    pub fn dup(&self) -> (r: Value)
        ensures
            r@ == self@,
            r.spec_kind() == self.spec_kind(),
    {
        match self {
            Value::IntVal(n) => Value::IntVal(*n),
            Value::Int64Val(n) => Value::Int64Val(*n),
            Value::FloatVal(t) => Value::FloatVal(t.clone()),
            Value::StrVal(s) => Value::StrVal(s.clone()),
            Value::BoolVal(b) => Value::BoolVal(*b),
        }
    }
}

/// What an `i32` read yields from a payload: `Int` directly, `Int64`
/// when the value fits 32 bits, nothing otherwise.
pub open spec fn read_i32_v(v: ValueV) -> Option<int> {
    match v {
        ValueV::IntV(n) => Some(n),
        ValueV::Int64V(n) => if -0x8000_0000 <= n <= 0x7FFF_FFFF {
            Some(n)
        } else {
            None
        },
        _ => None,
    }
}

/// What an `i64` read yields from a payload: either integer kind,
/// widening `Int`.
pub open spec fn read_i64_v(v: ValueV) -> Option<int> {
    match v {
        ValueV::IntV(n) => Some(n),
        ValueV::Int64V(n) => Some(n),
        _ => None,
    }
}

/// What a boolean read yields from a payload.
pub open spec fn read_bool_v(v: ValueV) -> Option<bool> {
    match v {
        ValueV::BoolV(b) => Some(b),
        _ => None,
    }
}

/// What a string read yields from a payload.
pub open spec fn read_str_v(v: ValueV) -> Option<Seq<char>> {
    match v {
        ValueV::StrV(s) => Some(s),
        _ => None,
    }
}

/// What a float read yields from a payload: the literal text.
pub open spec fn read_float_v(v: ValueV) -> Option<Seq<char>> {
    match v {
        ValueV::FloatV(t) => Some(t),
        _ => None,
    }
}

/// Payload a freshly added node of the given kind starts with:
/// zero, empty, or false; none for aggregates.
pub open spec fn default_value_v(t: LibType) -> Option<ValueV> {
    match t {
        LibType::TypeInt => Some(ValueV::IntV(0)),
        LibType::TypeInt64 => Some(ValueV::Int64V(0)),
        LibType::TypeFloat => Some(ValueV::FloatV("0.0"@)),
        LibType::TypeString => Some(ValueV::StrV(Seq::empty())),
        LibType::TypeBoolean => Some(ValueV::BoolV(false)),
        _ => None,
    }
}

/// Mathematical model of one node of the settings tree: its kind, its
/// name (groups name their children; array and list elements and the
/// root are unnamed), its scalar payload (aggregates carry none), its
/// display hint, and its children in sibling order.  Position and parent
/// are implicit in the nesting.
pub struct NodeView {
    pub kind: LibType,
    pub name: Option<Seq<char>>,
    pub value: Option<ValueV>,
    pub format: Format,
    pub children: Seq<NodeView>,
}

} // verus!
