//! The schema that decoding follows: messages, their fields, and the types of
//! those fields. Messages are held in an arena and refer to each other by
//! index, so that a message type may contain itself.
use vstd::prelude::*;

use crate::value::Value;

verus! {

/// The resolved type of a field.
#[derive(Debug, Clone, PartialEq, Eq)]
pub enum FieldType {
    /// `bool`
    Bool,
    /// `int32`
    Int32,
    /// `int64`
    Int64,
    /// `sint32`
    SInt32,
    /// `sint64`
    SInt64,
    /// `uint32`
    UInt32,
    /// `uint64`
    UInt64,
    /// `fixed32`
    Fixed32,
    /// `fixed64`
    Fixed64,
    /// `sfixed32`
    SFixed32,
    /// `sfixed64`
    SFixed64,
    /// `float`
    Float,
    /// `double`
    Double,
    /// `bytes`
    Bytes,
    /// `string`
    String,
    /// An enum, by name.
    Enum(String),
    /// A message, by its index among the descriptors.
    Message(usize),
    /// A group.
    Group,
    /// An enum that was referred to but never defined.
    UnresolvedEnum(String),
    /// A message that was referred to but never defined.
    UnresolvedMessage(String),
}

/// One field of a message.
#[derive(Debug)]
pub struct FieldDescriptor {
    /// The field's name.
    pub name: String,
    /// The field's number.
    pub number: i32,
    /// Whether the field is repeated.
    pub repeated: bool,
    /// The field's type.
    pub field_type: FieldType,
    /// The field's declared default, if any.
    pub default_value: Option<Value>,
}

/// One message type: its fields.
#[derive(Debug)]
pub struct MessageDescriptor {
    /// The message's name.
    pub name: String,
    /// The message's fields.
    pub fields: Vec<FieldDescriptor>,
}

/// A set of message types that refer to each other by index.
#[derive(Debug)]
pub struct Descriptors {
    /// The message types.
    pub messages: Vec<MessageDescriptor>,
}

impl FieldDescriptor {
    /// A default is a plain value, never a message.
    pub open spec fn wf(&self) -> bool {
        self.default_value matches Some(v) ==> !(v is Message)
    }

    /// Whether the default, if any, is a plain value.
    pub fn is_well_formed(&self) -> (r: bool)
        ensures
            r == self.wf(),
    {
        match &self.default_value {
            Some(Value::Message(_)) => false,
            _ => true,
        }
    }

    /// The field's number.
    pub fn number(&self) -> (r: i32)
        ensures
            r == self.number,
    {
        self.number
    }

    /// Whether the field is repeated.
    pub fn is_repeated(&self) -> (r: bool)
        ensures
            r == self.repeated,
    {
        self.repeated
    }

    /// The field's type.
    pub fn field_type(&self) -> (r: &FieldType)
        ensures
            *r == self.field_type,
    {
        &self.field_type
    }

    /// The field's declared default, if any.
    pub fn default_value(&self) -> (r: Option<&Value>)
        ensures
            r == match self.default_value {
                Some(v) => Some(&v),
                None => None::<&Value>,
            },
    {
        match &self.default_value {
            Some(v) => Some(v),
            None => None,
        }
    }
}

impl MessageDescriptor {
    /// Field numbers are unique, and each field is well formed.
    pub open spec fn wf(&self) -> bool {
        &&& forall|i: int| 0 <= i < self.fields@.len() ==> #[trigger] self.fields@[i].wf()
        &&& forall|i: int, j: int|
            0 <= i < self.fields@.len() && 0 <= j < self.fields@.len() && i != j
                ==> #[trigger] self.fields@[i].number != #[trigger] self.fields@[j].number
    }

    /// The numbers of the declared fields.
    pub open spec fn numbers(&self) -> Set<i32> {
        Set::new(|n: i32| exists|i: int| 0 <= i < self.fields@.len() && #[trigger] self.fields@[i].number == n)
    }

    /// The declared field with number `n`, if there is one.
    pub open spec fn field_spec(&self, n: i32) -> Option<FieldDescriptor> {
        if self.numbers().contains(n) {
            Some(self.fields@[choose|i: int| 0 <= i < self.fields@.len() && #[trigger] self.fields@[i].number == n])
        } else {
            None
        }
    }

    /// Whether field numbers are unique and each field is well formed.
    pub fn is_well_formed(&self) -> (r: bool)
        ensures
            r == self.wf(),
    {
        let mut i: usize = 0;
        while i < self.fields.len()
            invariant
                i <= self.fields@.len(),
                forall|a: int| 0 <= a < i ==> #[trigger] self.fields@[a].wf(),
                forall|a: int, b: int|
                    0 <= a < i && 0 <= b < i && a != b ==> #[trigger] self.fields@[a].number
                        != #[trigger] self.fields@[b].number,
            decreases self.fields@.len() - i,
        {
            if !self.fields[i].is_well_formed() {
                return false;
            }
            let mut j: usize = 0;
            while j < i
                invariant
                    i < self.fields@.len(),
                    j <= i,
                    forall|b: int| 0 <= b < j ==> #[trigger] self.fields@[b].number != self.fields@[i as int].number,
                decreases i - j,
            {
                if self.fields[j].number == self.fields[i].number {
                    return false;
                }
                j = j + 1;
            }
            i = i + 1;
        }
        true
    }

    /// The fields of this message.
    pub fn fields(&self) -> (r: &Vec<FieldDescriptor>)
        ensures
            r == self.fields,
    {
        &self.fields
    }

    /// The field with number `n`, if the message declares one.
    pub fn field_by_number(&self, n: i32) -> (r: Option<&FieldDescriptor>)
        requires
            self.wf(),
        ensures
            match r {
                Some(f) => self.numbers().contains(n) && f.number == n && Some(*f) == self.field_spec(n)
                    && exists|i: int| 0 <= i < self.fields@.len() && self.fields@[i] == *f,
                None => !self.numbers().contains(n) && self.field_spec(n) is None,
            },
    {
        let mut i: usize = 0;
        while i < self.fields.len()
            invariant
                self.wf(),
                i <= self.fields@.len(),
                forall|j: int| 0 <= j < i ==> #[trigger] self.fields@[j].number != n,
            decreases self.fields@.len() - i,
        {
            if self.fields[i].number == n {
                proof {
                    assert(self.numbers().contains(n));
                    let k = choose|k: int| 0 <= k < self.fields@.len() && #[trigger] self.fields@[k].number == n;
                    if k != i as int {
                        assert(self.fields@[k].number != self.fields@[i as int].number);
                    }
                }
                return Some(&self.fields[i]);
            }
            i = i + 1;
        }
        None
    }
}

impl Descriptors {
    /// Every message refers only to messages of the set, and each is well formed.
    pub open spec fn wf(&self) -> bool {
        forall|m: int| 0 <= m < self.messages@.len() ==> {
            &&& #[trigger] self.messages@[m].wf()
            &&& forall|i: int| 0 <= i < self.messages@[m].fields@.len()
                ==> (#[trigger] self.messages@[m].fields@[i].field_type matches FieldType::Message(t)
                    ==> t < self.messages@.len())
        }
    }

    /// Whether every message is well formed and refers only to messages of the set.
    pub fn is_well_formed(&self) -> (r: bool)
        ensures
            r == self.wf(),
    {
        let n = self.messages.len();
        let mut m: usize = 0;
        while m < n
            invariant
                n == self.messages@.len(),
                m <= n,
                forall|k: int| 0 <= k < m ==> {
                    &&& #[trigger] self.messages@[k].wf()
                    &&& forall|i: int| 0 <= i < self.messages@[k].fields@.len()
                        ==> (#[trigger] self.messages@[k].fields@[i].field_type matches FieldType::Message(t)
                            ==> t < n)
                },
            decreases n - m,
        {
            let md = &self.messages[m];
            if !md.is_well_formed() {
                proof {
                    if self.wf() {
                        assert(self.messages@[m as int].wf());
                    }
                }
                return false;
            }
            let mut i: usize = 0;
            while i < md.fields.len()
                invariant
                    n == self.messages@.len(),
                    m < n,
                    *md == self.messages@[m as int],
                    md.wf(),
                    i <= md.fields@.len(),
                    forall|j: int| 0 <= j < i
                        ==> (#[trigger] md.fields@[j].field_type matches FieldType::Message(t) ==> t < n),
                decreases md.fields@.len() - i,
            {
                match &md.fields[i].field_type {
                    FieldType::Message(t) => {
                        if *t >= n {
                            proof {
                                assert(self.messages@[m as int].fields@[i as int].field_type
                                    == md.fields@[i as int].field_type);
                                if self.wf() {
                                    assert(self.messages@[m as int].wf());
                                }
                            }
                            return false;
                        }
                    },
                    _ => {},
                }
                i = i + 1;
            }
            assert forall|i: int| 0 <= i < self.messages@[m as int].fields@.len() implies (
            #[trigger] self.messages@[m as int].fields@[i].field_type matches FieldType::Message(t)
                ==> t < n) by {
                assert(md.fields@[i].field_type == self.messages@[m as int].fields@[i].field_type);
            }
            assert(self.messages@[m as int].wf());
            assert forall|k: int| 0 <= k < m + 1 implies {
                &&& #[trigger] self.messages@[k].wf()
                &&& forall|i: int| 0 <= i < self.messages@[k].fields@.len()
                    ==> (#[trigger] self.messages@[k].fields@[i].field_type matches FieldType::Message(t)
                        ==> t < n)
            } by {
                if k == m as int {
                    assert(self.messages@[k] == *md);
                }
            }
            m = m + 1;
        }
        true
    }

    /// The message type at index `i`.
    pub fn message(&self, i: usize) -> (r: &MessageDescriptor)
        requires
            i < self.messages@.len(),
        ensures
            *r == self.messages@[i as int],
    {
        &self.messages[i]
    }
}

} // verus!
