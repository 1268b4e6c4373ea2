//! Values that have left a virtual machine.
use vstd::prelude::*;
use vstd::slice::slice_to_vec;
use vstd::string::*;

verus! {

/// An owned value copied out of a virtual machine. Floating-point payloads are
/// kept as their bit patterns.
#[derive(Debug)]
pub enum MarshaledValue {
    Nil,
    Boolean(bool),
    /// A double, as its bits.
    Number(u64),
    Integer(i64),
    /// Three singles, as their bits.
    Vector([u32; 3]),
    LightUserdata {
        /// The address that the userdata stands for.
        address: u64,
    },
    String(Vec<u8>),
    Buffer(Vec<u8>),
    /// Pairs of keys and values.
    Table(Vec<(MarshaledValue, MarshaledValue)>),
    /// A value that cannot leave the machine, by its type name.
    Opaque(&'static str),
}

/// Model of a [`MarshaledValue`].
pub enum ValueModel {
    Nil,
    Boolean(bool),
    Number(u64),
    Integer(i64),
    Vector([u32; 3]),
    LightUserdata { address: u64 },
    String(Seq<u8>),
    Buffer(Seq<u8>),
    Table(Seq<(ValueModel, ValueModel)>),
    Opaque(Seq<char>),
}

impl MarshaledValue {
    pub open spec fn view(&self) -> ValueModel
        decreases self,
    {
        match self {
            MarshaledValue::Nil => ValueModel::Nil,
            MarshaledValue::Boolean(b) => ValueModel::Boolean(*b),
            MarshaledValue::Number(n) => ValueModel::Number(*n),
            MarshaledValue::Integer(i) => ValueModel::Integer(*i),
            MarshaledValue::Vector(v) => ValueModel::Vector(*v),
            MarshaledValue::LightUserdata { address } => ValueModel::LightUserdata {
                address: *address,
            },
            MarshaledValue::String(b) => ValueModel::String(b@),
            MarshaledValue::Buffer(b) => ValueModel::Buffer(b@),
            MarshaledValue::Table(pairs) => ValueModel::Table(
                Seq::new(
                    pairs@.len(),
                    |i: int|
                        if 0 <= i < pairs@.len() {
                            (pairs@[i].0.view(), pairs@[i].1.view())
                        } else {
                            arbitrary()
                        },
                ),
            ),
            MarshaledValue::Opaque(kind) => ValueModel::Opaque(kind@),
        }
    }

    /// Copies a value.
    pub fn duplicate(&self) -> (r: Self)
        ensures
            r@ == self@,
        decreases self,
    {
        match self {
            MarshaledValue::Nil => MarshaledValue::Nil,
            MarshaledValue::Boolean(b) => MarshaledValue::Boolean(*b),
            MarshaledValue::Number(n) => MarshaledValue::Number(*n),
            MarshaledValue::Integer(i) => MarshaledValue::Integer(*i),
            MarshaledValue::Vector(v) => MarshaledValue::Vector(*v),
            MarshaledValue::LightUserdata { address } => MarshaledValue::LightUserdata {
                address: *address,
            },
            MarshaledValue::String(b) => MarshaledValue::String(slice_to_vec(b.as_slice())),
            MarshaledValue::Buffer(b) => MarshaledValue::Buffer(slice_to_vec(b.as_slice())),
            MarshaledValue::Table(pairs) => {
                let mut out: Vec<(MarshaledValue, MarshaledValue)> = Vec::new();
                let mut i: usize = 0;
                while i < pairs.len()
                    invariant
                        i <= pairs.len(),
                        out@.len() == i,
                        decreases_to!(self => pairs),
                        forall|k: int|
                            0 <= k < i ==> (#[trigger] out@[k]).0@ == pairs@[k].0@ && out@[k].1@
                                == pairs@[k].1@,
                    decreases pairs.len() - i,
                {
                    let pair = &pairs[i];
                    proof {
                        assert(decreases_to!(pairs => pairs@));
                        assert(decreases_to!(pairs@ => pairs@[i as int]));
                        assert(decreases_to!(pairs@[i as int] => pairs@[i as int].0));
                        assert(decreases_to!(pairs@[i as int] => pairs@[i as int].1));
                    }
                    out.push((pair.0.duplicate(), pair.1.duplicate()));
                    i += 1;
                }
                let r = MarshaledValue::Table(out);
                assert(r@->Table_0 =~= self@->Table_0);
                r
            },
            MarshaledValue::Opaque(kind) => MarshaledValue::Opaque(*kind),
        }
    }
}

} // verus!
