//! The dynamic value model: a recursive, tagged union with one case per
//! non-`End` tag type, together with its mathematical mirror used by every
//! contract of the codec.

use vstd::prelude::*;

use crate::FieldType;

verus! {

broadcast use vstd::std_specs::vec::group_vec_axioms, vstd::seq::group_seq_axioms;

/// Any decoded NBT payload.
///
/// Float and double payloads are carried as their IEEE 754 bit patterns
/// (`u32`/`u64`), so trees round-trip bit-exactly and equality of trees is
/// bit-pattern equality (a NaN stays the NaN it was).
///
/// A compound is kept as its sequence of entries in insertion order: the
/// order is preserved on the wire, which makes byte-stable round trips of
/// hand-authored fixtures possible. A well-formed list is homogeneously
/// typed; see [`wf_value`].
#[derive(Debug, PartialEq)]
pub enum Value {
    /// A signed byte.
    Byte(i8),
    /// A signed short.
    Short(i16),
    /// A signed int.
    Int(i32),
    /// A signed long.
    Long(i64),
    /// The bit pattern of a 32-bit IEEE 754 float.
    Float(u32),
    /// The bit pattern of a 64-bit IEEE 754 double.
    Double(u64),
    /// An ordered sequence of signed bytes.
    ByteArray(Vec<i8>),
    /// UTF-8 text.
    String(String),
    /// An ordered sequence of values, all of one tag type.
    List(Vec<Value>),
    /// A mapping from UTF-8 keys to values, in insertion order.
    Compound(Vec<(String, Value)>),
    /// An ordered sequence of signed ints.
    IntArray(Vec<i32>),
    /// An ordered sequence of signed longs.
    LongArray(Vec<i64>),
}

/// The mathematical shape of a [`Value`]: sequences instead of vectors,
/// character sequences instead of strings. Contracts of the codec are
/// stated over this type.
pub enum SpecValue {
    Byte(i8),
    Short(i16),
    Int(i32),
    Long(i64),
    Float(u32),
    Double(u64),
    ByteArray(Seq<i8>),
    String(Seq<char>),
    List(Seq<SpecValue>),
    Compound(Seq<(Seq<char>, SpecValue)>),
    IntArray(Seq<i32>),
    LongArray(Seq<i64>),
}

/// The mathematical mirror of a value tree.
pub open spec fn view_value(v: Value) -> SpecValue
    decreases v,
{
    match v {
        Value::Byte(x) => SpecValue::Byte(x),
        Value::Short(x) => SpecValue::Short(x),
        Value::Int(x) => SpecValue::Int(x),
        Value::Long(x) => SpecValue::Long(x),
        Value::Float(x) => SpecValue::Float(x),
        Value::Double(x) => SpecValue::Double(x),
        Value::ByteArray(xs) => SpecValue::ByteArray(xs@),
        Value::String(s) => SpecValue::String(s@),
        Value::List(elems) => SpecValue::List(
            Seq::new(
                elems@.len(),
                |i: int|
                    if 0 <= i < elems@.len() {
                        view_value(elems@[i])
                    } else {
                        SpecValue::Byte(0)
                    },
            ),
        ),
        Value::Compound(entries) => SpecValue::Compound(
            Seq::new(
                entries@.len(),
                |i: int|
                    if 0 <= i < entries@.len() {
                        (entries@[i].0@, view_value(entries@[i].1))
                    } else {
                        (Seq::<char>::empty(), SpecValue::Byte(0))
                    },
            ),
        ),
        Value::IntArray(xs) => SpecValue::IntArray(xs@),
        Value::LongArray(xs) => SpecValue::LongArray(xs@),
    }
}

impl View for Value {
    type V = SpecValue;

    open spec fn view(&self) -> SpecValue {
        view_value(*self)
    }
}

/// The tag type that a payload carries. Never `End`: `End` is a structural
/// terminator, not a carried value.
pub open spec fn spec_tag_of(sv: SpecValue) -> FieldType {
    match sv {
        SpecValue::Byte(_) => FieldType::Byte,
        SpecValue::Short(_) => FieldType::Short,
        SpecValue::Int(_) => FieldType::Int,
        SpecValue::Long(_) => FieldType::Long,
        SpecValue::Float(_) => FieldType::Float,
        SpecValue::Double(_) => FieldType::Double,
        SpecValue::ByteArray(_) => FieldType::ByteArray,
        SpecValue::String(_) => FieldType::String,
        SpecValue::List(_) => FieldType::List,
        SpecValue::Compound(_) => FieldType::Compound,
        SpecValue::IntArray(_) => FieldType::IntArray,
        SpecValue::LongArray(_) => FieldType::LongArray,
    }
}

/// A value tree is well formed when every list in it is homogeneously
/// typed: all elements carry the tag of the first element.
pub open spec fn wf_value(sv: SpecValue) -> bool
    decreases sv,
{
    match sv {
        SpecValue::List(elems) => forall|i: int|
            0 <= i < elems.len() ==> wf_value(#[trigger] elems[i]) && spec_tag_of(elems[i])
                == spec_tag_of(elems[0]),
        SpecValue::Compound(entries) => forall|i: int|
            0 <= i < entries.len() ==> wf_value(#[trigger] entries[i].1),
        _ => true,
    }
}

/// Nesting of lists and compounds in `sv` is at most `d` levels deep.
/// Scalars, arrays and strings do not nest.
pub open spec fn height_le(sv: SpecValue, d: nat) -> bool
    decreases sv,
{
    match sv {
        SpecValue::List(elems) => d >= 1 && forall|i: int|
            0 <= i < elems.len() ==> height_le(#[trigger] elems[i], (d - 1) as nat),
        SpecValue::Compound(entries) => d >= 1 && forall|i: int|
            0 <= i < entries.len() ==> height_le(#[trigger] entries[i].1, (d - 1) as nat),
        _ => true,
    }
}

impl Value {
    /// The tag type that this value carries.
    pub fn tag(&self) -> (t: FieldType)
        ensures
            t == spec_tag_of(self@),
    {
        match self {
            Value::Byte(_) => FieldType::Byte,
            Value::Short(_) => FieldType::Short,
            Value::Int(_) => FieldType::Int,
            Value::Long(_) => FieldType::Long,
            Value::Float(_) => FieldType::Float,
            Value::Double(_) => FieldType::Double,
            Value::ByteArray(_) => FieldType::ByteArray,
            Value::String(_) => FieldType::String,
            Value::List(_) => FieldType::List,
            Value::Compound(_) => FieldType::Compound,
            Value::IntArray(_) => FieldType::IntArray,
            Value::LongArray(_) => FieldType::LongArray,
        }
    }

    /// Decides well-formedness: every list in the tree is homogeneously
    /// typed.
    #[verifier::loop_isolation(false)]
    pub fn is_well_formed(&self) -> (r: bool)
        ensures
            r == wf_value(self@),
        decreases *self,
    {
        match self {
            Value::List(elems) => {
                let ghost vs = self@->List_0;
                proof {
                    assert(vs =~= Seq::new(
                        elems@.len(),
                        |i: int|
                            if 0 <= i < elems@.len() {
                                view_value(elems@[i])
                            } else {
                                SpecValue::Byte(0)
                            },
                    ));
                }
                let mut i: usize = 0;
                while i < elems.len()
                    invariant
                        0 <= i <= elems@.len(),
                        vs == self@->List_0,
                        self@ is List,
                        vs.len() == elems@.len(),
                        forall|j: int| 0 <= j < elems@.len() ==> vs[j] == view_value(elems@[j]),
                        forall|j: int|
                            0 <= j < i ==> wf_value(#[trigger] vs[j]) && spec_tag_of(vs[j])
                                == spec_tag_of(vs[0]),
                    decreases elems@.len() - i,
                {
                    proof {
                        assert(*self == Value::List(*elems));
                        assert(decreases_to!(*self => *elems));
                        assert(decreases_to!(*elems => elems@));
                        assert(decreases_to!(elems@ => elems@[i as int]));
                        assert(decreases_to!(*self => elems@[i as int]));
                    }
                    let w = elems[i].is_well_formed();
                    let same = elems[i].tag() == elems[0].tag();
                    if !w || !same {
                        proof {
                            assert(!(wf_value(vs[i as int]) && spec_tag_of(vs[i as int])
                                == spec_tag_of(vs[0])));
                        }
                        return false;
                    }
                    i = i + 1;
                }
                true
            },
            Value::Compound(entries) => {
                let ghost vs = self@->Compound_0;
                proof {
                    assert(vs =~= Seq::new(
                        entries@.len(),
                        |i: int|
                            if 0 <= i < entries@.len() {
                                (entries@[i].0@, view_value(entries@[i].1))
                            } else {
                                (Seq::<char>::empty(), SpecValue::Byte(0))
                            },
                    ));
                }
                let mut i: usize = 0;
                while i < entries.len()
                    invariant
                        0 <= i <= entries@.len(),
                        vs == self@->Compound_0,
                        self@ is Compound,
                        vs.len() == entries@.len(),
                        forall|j: int|
                            0 <= j < entries@.len() ==> #[trigger] vs[j].1 == view_value(
                                entries@[j].1,
                            ),
                        forall|j: int| 0 <= j < i ==> wf_value(#[trigger] vs[j].1),
                    decreases entries@.len() - i,
                {
                    proof {
                        assert(*self == Value::Compound(*entries));
                        assert(decreases_to!(*self => *entries));
                        assert(decreases_to!(*entries => entries@));
                        assert(decreases_to!(entries@ => entries@[i as int]));
                        assert(decreases_to!(*self => entries@[i as int].1));
                    }
                    let w = entries[i].1.is_well_formed();
                    if !w {
                        proof {
                            assert(!wf_value(vs[i as int].1));
                        }
                        return false;
                    }
                    i = i + 1;
                }
                true
            },
            _ => true,
        }
    }

    /// Decides whether nesting of lists and compounds stays within `d`
    /// levels.
    #[verifier::loop_isolation(false)]
    pub fn fits_depth(&self, d: u32) -> (r: bool)
        ensures
            r == height_le(self@, d as nat),
        decreases *self,
    {
        match self {
            Value::List(elems) => {
                let ghost vs = self@->List_0;
                proof {
                    assert(vs =~= Seq::new(
                        elems@.len(),
                        |i: int|
                            if 0 <= i < elems@.len() {
                                view_value(elems@[i])
                            } else {
                                SpecValue::Byte(0)
                            },
                    ));
                }
                if d == 0 {
                    return false;
                }
                let mut i: usize = 0;
                while i < elems.len()
                    invariant
                        0 <= i <= elems@.len(),
                        d >= 1,
                        vs == self@->List_0,
                        self@ is List,
                        vs.len() == elems@.len(),
                        forall|j: int| 0 <= j < elems@.len() ==> vs[j] == view_value(elems@[j]),
                        forall|j: int| 0 <= j < i ==> height_le(#[trigger] vs[j], (d - 1) as nat),
                    decreases elems@.len() - i,
                {
                    proof {
                        assert(*self == Value::List(*elems));
                        assert(decreases_to!(*self => *elems));
                        assert(decreases_to!(*elems => elems@));
                        assert(decreases_to!(elems@ => elems@[i as int]));
                        assert(decreases_to!(*self => elems@[i as int]));
                    }
                    let fine = elems[i].fits_depth(d - 1);
                    if !fine {
                        proof {
                            assert(!height_le(vs[i as int], (d - 1) as nat));
                        }
                        return false;
                    }
                    i = i + 1;
                }
                true
            },
            Value::Compound(entries) => {
                let ghost vs = self@->Compound_0;
                proof {
                    assert(vs =~= Seq::new(
                        entries@.len(),
                        |i: int|
                            if 0 <= i < entries@.len() {
                                (entries@[i].0@, view_value(entries@[i].1))
                            } else {
                                (Seq::<char>::empty(), SpecValue::Byte(0))
                            },
                    ));
                }
                if d == 0 {
                    return false;
                }
                let mut i: usize = 0;
                while i < entries.len()
                    invariant
                        0 <= i <= entries@.len(),
                        d >= 1,
                        vs == self@->Compound_0,
                        self@ is Compound,
                        vs.len() == entries@.len(),
                        forall|j: int|
                            0 <= j < entries@.len() ==> #[trigger] vs[j].1 == view_value(
                                entries@[j].1,
                            ),
                        forall|j: int| 0 <= j < i ==> height_le(#[trigger] vs[j].1, (d - 1) as nat),
                    decreases entries@.len() - i,
                {
                    proof {
                        assert(*self == Value::Compound(*entries));
                        assert(decreases_to!(*self => *entries));
                        assert(decreases_to!(*entries => entries@));
                        assert(decreases_to!(entries@ => entries@[i as int]));
                        assert(decreases_to!(*self => entries@[i as int].1));
                    }
                    let fine = entries[i].1.fits_depth(d - 1);
                    if !fine {
                        proof {
                            assert(!height_le(vs[i as int].1, (d - 1) as nat));
                        }
                        return false;
                    }
                    i = i + 1;
                }
                true
            },
            _ => true,
        }
    }
}

} // verus!
