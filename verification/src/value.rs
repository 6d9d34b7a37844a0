//! The value tree a decode produces, and its mathematical model.

use vstd::prelude::*;

verus! {

/// The mathematical model of a decoded value.
pub enum Value {
    /// A raw byte sequence; it need not be text.
    ByteString(Seq<u8>),
    /// A whole number.
    Integer(int),
    /// Values in the order in which they were encoded.
    List(Seq<Value>),
    /// Keys with their values, in the order in which the keys first appeared.
    Dictionary(Seq<(Seq<u8>, Value)>),
}

/// A decoded value.
#[derive(Debug, PartialEq, Eq)]
pub enum BencodeType {
    BtString(Vec<u8>),
    BtNumber(i64),
    BtLists(Vec<BencodeType>),
    BtDictionary(Vec<(Vec<u8>, BencodeType)>),
}

impl View for BencodeType {
    type V = Value;

    open spec fn view(&self) -> Value
        decreases self,
    {
        match self {
            BencodeType::BtString(bytes) => Value::ByteString(bytes@),
            BencodeType::BtNumber(n) => Value::Integer(*n as int),
            BencodeType::BtLists(items) => Value::List(
                Seq::new(
                    items.len() as nat,
                    |i: int|
                        if 0 <= i < items.len() {
                            items[i]@
                        } else {
                            Value::Integer(0)
                        },
                ),
            ),
            BencodeType::BtDictionary(entries) => Value::Dictionary(
                Seq::new(
                    entries.len() as nat,
                    |i: int|
                        if 0 <= i < entries.len() {
                            (entries[i].0@, entries[i].1@)
                        } else {
                            (Seq::empty(), Value::Integer(0))
                        },
                ),
            ),
        }
    }
}

/// The models of the items of a list, in order.
pub open spec fn list_model(items: Seq<BencodeType>) -> Seq<Value> {
    Seq::new(items.len(), |i: int| items[i]@)
}

/// The models of the entries of a dictionary, in order.
pub open spec fn entries_model(entries: Seq<(Vec<u8>, BencodeType)>) -> Seq<(Seq<u8>, Value)> {
    Seq::new(entries.len(), |i: int| (entries[i].0@, entries[i].1@))
}

/// A list is modelled by the models of its items.
pub proof fn lemma_list_view(items: Vec<BencodeType>)
    ensures
        BencodeType::BtLists(items)@ == Value::List(list_model(items@)),
{
    assert(BencodeType::BtLists(items)@->List_0 =~= list_model(items@));
}

/// A dictionary is modelled by the models of its entries.
pub proof fn lemma_dictionary_view(entries: Vec<(Vec<u8>, BencodeType)>)
    ensures
        BencodeType::BtDictionary(entries)@ == Value::Dictionary(entries_model(entries@)),
{
    reveal_with_fuel(<BencodeType as View>::view, 2);
    assert(BencodeType::BtDictionary(entries)@->Dictionary_0 =~~= entries_model(entries@));
}

} // verus!
