//! Logical column types.

use vstd::prelude::*;

verus! {

/// The views of the elements of a sequence, in order.
pub open spec fn views<T: View>(s: Seq<T>) -> Seq<T::V> {
    Seq::new(s.len(), |i: int| s[i]@)
}

/// The view of what an `Option` holds.
pub open spec fn option_view<T: View>(o: Option<T>) -> Option<T::V> {
    match o {
        Some(t) => Some(t@),
        None => None,
    }
}

/// The kind of a logical type.
#[derive(Clone, Copy, Debug, PartialEq, Eq, Structural)]
pub enum LogicalTypeId {
    SqlNull,
    Boolean,
    TinyInt,
    SmallInt,
    Integer,
    BigInt,
    Date,
    Time,
    TimestampSec,
    TimestampMs,
    Timestamp,
    TimestampNs,
    Decimal,
    Float,
    Double,
    Varchar,
    Blob,
    Interval,
    UTinyInt,
    USmallInt,
    UInteger,
    UBigInt,
    TimestampTz,
    TimeTz,
    Bit,
    UHugeInt,
    HugeInt,
    Uuid,
    Struct,
    List,
    Mapping,
    Enum,
    Union,
    Array,
}

impl LogicalTypeId {
    /// The number of the type on the wire.
    pub open spec fn spec_code(self) -> u8 {
        match self {
            LogicalTypeId::SqlNull => 1,
            LogicalTypeId::Boolean => 10,
            LogicalTypeId::TinyInt => 11,
            LogicalTypeId::SmallInt => 12,
            LogicalTypeId::Integer => 13,
            LogicalTypeId::BigInt => 14,
            LogicalTypeId::Date => 15,
            LogicalTypeId::Time => 16,
            LogicalTypeId::TimestampSec => 17,
            LogicalTypeId::TimestampMs => 18,
            LogicalTypeId::Timestamp => 19,
            LogicalTypeId::TimestampNs => 20,
            LogicalTypeId::Decimal => 21,
            LogicalTypeId::Float => 22,
            LogicalTypeId::Double => 23,
            LogicalTypeId::Varchar => 25,
            LogicalTypeId::Blob => 26,
            LogicalTypeId::Interval => 27,
            LogicalTypeId::UTinyInt => 28,
            LogicalTypeId::USmallInt => 29,
            LogicalTypeId::UInteger => 30,
            LogicalTypeId::UBigInt => 31,
            LogicalTypeId::TimestampTz => 32,
            LogicalTypeId::TimeTz => 34,
            LogicalTypeId::Bit => 36,
            LogicalTypeId::UHugeInt => 49,
            LogicalTypeId::HugeInt => 50,
            LogicalTypeId::Uuid => 54,
            LogicalTypeId::Struct => 100,
            LogicalTypeId::List => 101,
            LogicalTypeId::Mapping => 102,
            LogicalTypeId::Enum => 104,
            LogicalTypeId::Union => 107,
            LogicalTypeId::Array => 108,
        }
    }

    /// The number of the type on the wire.
    pub fn code(self) -> (code: u8)
        ensures
            code == self.spec_code(),
    {
        match self {
            LogicalTypeId::SqlNull => 1,
            LogicalTypeId::Boolean => 10,
            LogicalTypeId::TinyInt => 11,
            LogicalTypeId::SmallInt => 12,
            LogicalTypeId::Integer => 13,
            LogicalTypeId::BigInt => 14,
            LogicalTypeId::Date => 15,
            LogicalTypeId::Time => 16,
            LogicalTypeId::TimestampSec => 17,
            LogicalTypeId::TimestampMs => 18,
            LogicalTypeId::Timestamp => 19,
            LogicalTypeId::TimestampNs => 20,
            LogicalTypeId::Decimal => 21,
            LogicalTypeId::Float => 22,
            LogicalTypeId::Double => 23,
            LogicalTypeId::Varchar => 25,
            LogicalTypeId::Blob => 26,
            LogicalTypeId::Interval => 27,
            LogicalTypeId::UTinyInt => 28,
            LogicalTypeId::USmallInt => 29,
            LogicalTypeId::UInteger => 30,
            LogicalTypeId::UBigInt => 31,
            LogicalTypeId::TimestampTz => 32,
            LogicalTypeId::TimeTz => 34,
            LogicalTypeId::Bit => 36,
            LogicalTypeId::UHugeInt => 49,
            LogicalTypeId::HugeInt => 50,
            LogicalTypeId::Uuid => 54,
            LogicalTypeId::Struct => 100,
            LogicalTypeId::List => 101,
            LogicalTypeId::Mapping => 102,
            LogicalTypeId::Enum => 104,
            LogicalTypeId::Union => 107,
            LogicalTypeId::Array => 108,
        }
    }

    /// The kind with the given number on the wire, if there is one.
    pub open spec fn of_code(code: u64) -> Option<Self> {
        if exists|id: LogicalTypeId| #[trigger] id.spec_code() == code {
            Some(choose|id: LogicalTypeId| #[trigger] id.spec_code() == code)
        } else {
            None
        }
    }

    /// Different kinds have different numbers.
    pub proof fn lemma_of_code(self)
        ensures
            Self::of_code(self.spec_code() as u64) == Some(self),
    {
    }

    /// The kind with the given number on the wire, if there is one.
    pub fn from_code(code: u64) -> (id: Option<Self>)
        ensures
            id == Self::of_code(code),
    {
        let id = if code == 1 {
            Some(LogicalTypeId::SqlNull)
        } else if code == 10 {
            Some(LogicalTypeId::Boolean)
        } else if code == 11 {
            Some(LogicalTypeId::TinyInt)
        } else if code == 12 {
            Some(LogicalTypeId::SmallInt)
        } else if code == 13 {
            Some(LogicalTypeId::Integer)
        } else if code == 14 {
            Some(LogicalTypeId::BigInt)
        } else if code == 15 {
            Some(LogicalTypeId::Date)
        } else if code == 16 {
            Some(LogicalTypeId::Time)
        } else if code == 17 {
            Some(LogicalTypeId::TimestampSec)
        } else if code == 18 {
            Some(LogicalTypeId::TimestampMs)
        } else if code == 19 {
            Some(LogicalTypeId::Timestamp)
        } else if code == 20 {
            Some(LogicalTypeId::TimestampNs)
        } else if code == 21 {
            Some(LogicalTypeId::Decimal)
        } else if code == 22 {
            Some(LogicalTypeId::Float)
        } else if code == 23 {
            Some(LogicalTypeId::Double)
        } else if code == 25 {
            Some(LogicalTypeId::Varchar)
        } else if code == 26 {
            Some(LogicalTypeId::Blob)
        } else if code == 27 {
            Some(LogicalTypeId::Interval)
        } else if code == 28 {
            Some(LogicalTypeId::UTinyInt)
        } else if code == 29 {
            Some(LogicalTypeId::USmallInt)
        } else if code == 30 {
            Some(LogicalTypeId::UInteger)
        } else if code == 31 {
            Some(LogicalTypeId::UBigInt)
        } else if code == 32 {
            Some(LogicalTypeId::TimestampTz)
        } else if code == 34 {
            Some(LogicalTypeId::TimeTz)
        } else if code == 36 {
            Some(LogicalTypeId::Bit)
        } else if code == 49 {
            Some(LogicalTypeId::UHugeInt)
        } else if code == 50 {
            Some(LogicalTypeId::HugeInt)
        } else if code == 54 {
            Some(LogicalTypeId::Uuid)
        } else if code == 100 {
            Some(LogicalTypeId::Struct)
        } else if code == 101 {
            Some(LogicalTypeId::List)
        } else if code == 102 {
            Some(LogicalTypeId::Mapping)
        } else if code == 104 {
            Some(LogicalTypeId::Enum)
        } else if code == 107 {
            Some(LogicalTypeId::Union)
        } else if code == 108 {
            Some(LogicalTypeId::Array)
        } else {
            None
        };
        proof {
            if let Some(id) = id {
                assert(id.spec_code() == code);
                id.lemma_of_code();
            } else {
                assert forall|other: LogicalTypeId| #[trigger]
                    other.spec_code() != code by {}
            }
        }
        id
    }
}

/// A logical type: its kind and what the kind needs to be complete.
#[derive(Debug, PartialEq, Eq)]
pub struct LogicalType {
    pub id: LogicalTypeId,
    /// Digits of a decimal.
    pub width: u8,
    /// Digits of a decimal after the point.
    pub scale: u8,
    /// Elements of each value of an array type.
    pub size: u32,
    /// The fields of a struct, the one element type of a list or an array.
    pub children: Vec<ChildType>,
}

/// A named type inside another one.
#[derive(Debug, PartialEq, Eq)]
pub struct ChildType {
    pub name: String,
    pub logical_type: LogicalType,
}

/// The value of a `LogicalType`.
pub struct LogicalTypeView {
    pub id: LogicalTypeId,
    pub width: u8,
    pub scale: u8,
    pub size: u32,
    pub children: Seq<ChildTypeView>,
}

/// The value of a `ChildType`.
pub struct ChildTypeView {
    pub name: Seq<char>,
    pub logical_type: LogicalTypeView,
}

impl View for LogicalType {
    type V = LogicalTypeView;

    open spec fn view(&self) -> LogicalTypeView
        decreases self,
    {
        LogicalTypeView {
            id: self.id,
            width: self.width,
            scale: self.scale,
            size: self.size,
            children: Seq::new(
                self.children@.len(),
                |i: int|
                    if 0 <= i < self.children@.len() {
                        ChildTypeView {
                            name: self.children@[i].name@,
                            logical_type: self.children@[i].logical_type.view(),
                        }
                    } else {
                        arbitrary()
                    },
            ),
        }
    }
}

impl View for ChildType {
    type V = ChildTypeView;

    open spec fn view(&self) -> ChildTypeView {
        ChildTypeView { name: self.name@, logical_type: self.logical_type@ }
    }
}

/// The children of a type, seen as the views of a sequence.
pub proof fn lemma_children_view(t: LogicalType)
    ensures
        t@.children == views(t.children@),
{
    reveal_with_fuel(<LogicalType as View>::view, 2);
    assert(t@.children =~= views(t.children@));
}

impl LogicalType {
    /// A type that its kind alone determines.
    pub fn plain(id: LogicalTypeId) -> (t: Self)
        ensures
            t@ == LogicalTypeView::plain(id),
    {
        let t = LogicalType { id, width: 0, scale: 0, size: 0, children: Vec::new() };
        assert(t@.children =~= Seq::empty());
        t
    }
}

impl Clone for LogicalType {
    fn clone(&self) -> (t: Self)
        ensures
            t@ == self@,
        decreases self,
    {
        let mut children: Vec<ChildType> = Vec::new();
        let mut i: usize = 0;
        while i < self.children.len()
            invariant
                i <= self.children@.len(),
                children@.len() == i,
                forall|j: int| 0 <= j < i ==> #[trigger] children@[j]@ == self.children@[j]@,
            decreases self.children@.len() - i,
        {
            let child = &self.children[i];
            assert(decreases_to!(*self => self.children@[i as int].logical_type));
            children.push(
                ChildType { name: child.name.clone(), logical_type: child.logical_type.clone() },
            );
            i += 1;
        }
        let t = LogicalType {
            id: self.id,
            width: self.width,
            scale: self.scale,
            size: self.size,
            children,
        };
        proof {
            lemma_children_view(t);
            lemma_children_view(*self);
            assert(views(t.children@) =~= views(self.children@));
        }
        t
    }
}

impl Clone for ChildType {
    fn clone(&self) -> (t: Self)
        ensures
            t@ == self@,
    {
        ChildType { name: self.name.clone(), logical_type: self.logical_type.clone() }
    }
}

impl LogicalTypeView {
    pub open spec fn plain(id: LogicalTypeId) -> Self {
        LogicalTypeView { id, width: 0, scale: 0, size: 0, children: Seq::empty() }
    }
}

/// A named column of a result or of a table.
#[derive(Debug, PartialEq, Eq)]
pub struct ColumnDefinition {
    pub name: String,
    pub logical_type: LogicalType,
}

/// The value of a `ColumnDefinition`.
pub struct ColumnDefinitionView {
    pub name: Seq<char>,
    pub logical_type: LogicalTypeView,
}

impl View for ColumnDefinition {
    type V = ColumnDefinitionView;

    open spec fn view(&self) -> ColumnDefinitionView {
        ColumnDefinitionView { name: self.name@, logical_type: self.logical_type@ }
    }
}

impl Clone for ColumnDefinition {
    fn clone(&self) -> (column: Self)
        ensures
            column@ == self@,
    {
        ColumnDefinition { name: self.name.clone(), logical_type: self.logical_type.clone() }
    }
}

/// Constructors of the logical types.
pub struct LogicalTypes;

impl LogicalTypeView {
    /// A decimal type.
    pub open spec fn decimal(width: u8, scale: u8) -> Self {
        LogicalTypeView {
            id: LogicalTypeId::Decimal,
            width,
            scale,
            size: 0,
            children: Seq::empty(),
        }
    }

    /// A type with one child that has no name.
    pub open spec fn nested(id: LogicalTypeId, child: LogicalTypeView, size: u32) -> Self {
        LogicalTypeView {
            id,
            width: 0,
            scale: 0,
            size,
            children: seq![ChildTypeView { name: seq![], logical_type: child }],
        }
    }

    /// A type with named children.
    pub open spec fn structure(children: Seq<ChildTypeView>) -> Self {
        LogicalTypeView { id: LogicalTypeId::Struct, width: 0, scale: 0, size: 0, children }
    }
}

impl LogicalType {
    /// A type with one child that has no name.
    pub fn nested(id: LogicalTypeId, child: LogicalType, size: u32) -> (t: Self)
        ensures
            t@ == LogicalTypeView::nested(id, child@, size),
    {
        let mut children: Vec<ChildType> = Vec::new();
        children.push(ChildType { name: String::new(), logical_type: child });
        let t = LogicalType { id, width: 0, scale: 0, size, children };
        proof {
            lemma_children_view(t);
            assert(t@.children =~= seq![ChildTypeView { name: seq![], logical_type: child@ }]);
        }
        t
    }
}

impl LogicalTypes {
    pub fn boolean() -> (t: LogicalType)
        ensures
            t@ == LogicalTypeView::plain(LogicalTypeId::Boolean),
    {
        LogicalType::plain(LogicalTypeId::Boolean)
    }

    pub fn integer() -> (t: LogicalType)
        ensures
            t@ == LogicalTypeView::plain(LogicalTypeId::Integer),
    {
        LogicalType::plain(LogicalTypeId::Integer)
    }

    pub fn bigint() -> (t: LogicalType)
        ensures
            t@ == LogicalTypeView::plain(LogicalTypeId::BigInt),
    {
        LogicalType::plain(LogicalTypeId::BigInt)
    }

    pub fn varchar() -> (t: LogicalType)
        ensures
            t@ == LogicalTypeView::plain(LogicalTypeId::Varchar),
    {
        LogicalType::plain(LogicalTypeId::Varchar)
    }

    /// Fixed-point numbers with so many digits, of which so many stand after
    /// the point.
    pub fn decimal(width: u8, scale: u8) -> (t: LogicalType)
        ensures
            t@ == LogicalTypeView::decimal(width, scale),
    {
        let t = LogicalType {
            id: LogicalTypeId::Decimal,
            width,
            scale,
            size: 0,
            children: Vec::new(),
        };
        assert(t@.children =~= Seq::empty());
        t
    }

    /// Lists of any length.
    pub fn list(child: LogicalType) -> (t: LogicalType)
        ensures
            t@ == LogicalTypeView::nested(LogicalTypeId::List, child@, 0),
    {
        LogicalType::nested(LogicalTypeId::List, child, 0)
    }

    /// Lists of one length.
    pub fn array(child: LogicalType, size: u32) -> (t: LogicalType)
        ensures
            t@ == LogicalTypeView::nested(LogicalTypeId::Array, child@, size),
    {
        LogicalType::nested(LogicalTypeId::Array, child, size)
    }

    /// Values with named members.
    pub fn structure(children: Vec<ChildType>) -> (t: LogicalType)
        ensures
            t@ == LogicalTypeView::structure(views(children@)),
    {
        let t = LogicalType { id: LogicalTypeId::Struct, width: 0, scale: 0, size: 0, children };
        proof {
            lemma_children_view(t);
        }
        t
    }
}

} // verus!
