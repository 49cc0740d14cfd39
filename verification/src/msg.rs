//! The message tree exchanged with the child process: a JSON-like value.
//!
//! `Message` is the executable representation; its mathematical model is
//! `Val`, reached through the `View` trait. Strings are kept as raw bytes of
//! the UTF-8 wire text, integers as signed 64-bit values; objects keep their
//! fields in wire order.

use vstd::prelude::*;
use vstd::string::{StrSliceExecFns, StringSliceAdditionalSpecFns};

verus! {

/// Mathematical model of a message: an unbounded JSON-like tree.
pub enum Val {
    Null,
    Bool(bool),
    Int(int),
    Str(Seq<u8>),
    Arr(Seq<Val>),
    Obj(Seq<(Seq<u8>, Val)>),
}

/// A structured value exchanged with the child, one per wire line.
#[derive(Debug, PartialEq, Eq)]
pub enum Message {
    Null,
    Bool(bool),
    Int(i64),
    Str(Vec<u8>),
    Arr(Vec<Message>),
    Obj(Vec<(Vec<u8>, Message)>),
}

/// The model of a message: the same tree over `Seq` and `int`.
pub open spec fn view_msg(m: Message) -> Val
    decreases m,
{
    match m {
        Message::Null => Val::Null,
        Message::Bool(b) => Val::Bool(b),
        Message::Int(n) => Val::Int(n as int),
        Message::Str(s) => Val::Str(s@),
        Message::Arr(elems) => Val::Arr(view_elems(elems@)),
        Message::Obj(fields) => Val::Obj(view_fields(fields@)),
    }
}

/// The models of a sequence of array elements, in order.
pub open spec fn view_elems(s: Seq<Message>) -> Seq<Val>
    decreases s,
{
    if s.len() == 0 {
        Seq::empty()
    } else {
        seq![view_msg(s[0])] + view_elems(s.drop_first())
    }
}

/// The models of a sequence of object fields, in order.
pub open spec fn view_fields(s: Seq<(Vec<u8>, Message)>) -> Seq<(Seq<u8>, Val)>
    decreases s,
{
    if s.len() == 0 {
        Seq::empty()
    } else {
        seq![(s[0].0@, view_msg(s[0].1))] + view_fields(s.drop_first())
    }
}

impl View for Message {
    type V = Val;

    open spec fn view(&self) -> Val {
        view_msg(*self)
    }
}


/// The views of array elements are the views of the elements, pointwise.
pub proof fn lemma_view_elems(s: Seq<Message>)
    ensures
        view_elems(s).len() == s.len(),
        forall|j: int| 0 <= j < s.len() ==> #[trigger] view_elems(s)[j] == view_msg(s[j]),
    decreases s.len(),
{
    if s.len() > 0 {
        lemma_view_elems(s.drop_first());
    }
}

/// The views of object fields are the views of the fields, pointwise.
pub proof fn lemma_view_fields(s: Seq<(Vec<u8>, Message)>)
    ensures
        view_fields(s).len() == s.len(),
        forall|j: int| 0 <= j < s.len() ==> #[trigger] view_fields(s)[j] == (s[j].0@, view_msg(
            s[j].1,
        )),
    decreases s.len(),
{
    if s.len() > 0 {
        lemma_view_fields(s.drop_first());
    }
}

/// The value under `key` in an object's fields: the first occurrence counts.
pub open spec fn lookup_fields(fs: Seq<(Seq<u8>, Val)>, key: Seq<u8>) -> Option<Val>
    decreases fs.len(),
{
    if fs.len() == 0 {
        None
    } else if fs[0].0 == key {
        Some(fs[0].1)
    } else {
        lookup_fields(fs.drop_first(), key)
    }
}

/// The value under `key` when `v` is an object holding that key.
pub open spec fn obj_lookup(v: Val, key: Seq<u8>) -> Option<Val> {
    match v {
        Val::Obj(fs) => lookup_fields(fs, key),
        _ => None,
    }
}

/// True when `v` is an object with a field named `key`.
pub open spec fn has_key(v: Val, key: Seq<u8>) -> bool {
    obj_lookup(v, key) is Some
}

/// The protocol's envelope keys: the greeting banner, a command reply's
/// payload, an event's name, and an outgoing command's verb.
pub open spec fn key_qmp() -> Seq<u8> {
    "QMP".spec_bytes()
}

pub open spec fn key_return() -> Seq<u8> {
    "return".spec_bytes()
}

pub open spec fn key_event() -> Seq<u8> {
    "event".spec_bytes()
}

pub open spec fn key_execute() -> Seq<u8> {
    "execute".spec_bytes()
}

/// True when the raw bytes equal the UTF-8 bytes of `key`.
pub fn bytes_match(k: &Vec<u8>, key: &str) -> (r: bool)
    ensures
        r == (k@ == key.spec_bytes()),
{
    let kb = key.as_bytes_vec();
    if k.len() != kb.len() {
        return false;
    }
    let n = k.len();
    let mut i: usize = 0;
    while i < n
        invariant
            i <= n,
            n == k@.len(),
            n == kb@.len(),
            kb@ == key.spec_bytes(),
            forall|t: int| 0 <= t < i ==> k@[t] == kb@[t],
        decreases n - i,
    {
        if k[i] != kb[i] {
            return false;
        }
        i = i + 1;
    }
    assert(k@ =~= kb@);
    true
}

/// Index of the first field named `key`, if any.
fn field_index(fields: &Vec<(Vec<u8>, Message)>, key: &str) -> (r: Option<usize>)
    ensures
        match r {
            Some(i) => i < fields@.len() && fields@[i as int].0@ == key.spec_bytes()
                && lookup_fields(view_fields(fields@), key.spec_bytes()) == Some(view_msg(
                fields@[i as int].1,
            )),
            None => lookup_fields(view_fields(fields@), key.spec_bytes()) is None,
        },
{
    let ghost vfs = view_fields(fields@);
    let ghost kb = key.spec_bytes();
    proof {
        lemma_view_fields(fields@);
        assert(vfs.skip(0) =~= vfs);
    }
    let n = fields.len();
    let mut i: usize = 0;
    while i < n
        invariant
            i <= n,
            n == fields@.len(),
            vfs == view_fields(fields@),
            kb == key.spec_bytes(),
            vfs.len() == n,
            forall|j: int| 0 <= j < n ==> #[trigger] vfs[j] == (fields@[j].0@, view_msg(
                fields@[j].1,
            )),
            lookup_fields(vfs, kb) == lookup_fields(vfs.skip(i as int), kb),
        decreases n - i,
    {
        proof {
            assert(vfs.skip(i as int)[0] == vfs[i as int]);
        }
        if bytes_match(&fields[i].0, key) {
            return Some(i);
        }
        proof {
            assert(vfs.skip(i as int).drop_first() =~= vfs.skip(i + 1));
        }
        i = i + 1;
    }
    proof {
        assert(vfs.skip(n as int) =~= Seq::<(Seq<u8>, Val)>::empty());
    }
    None
}

/// Borrows the value of the first field named `key`, if `m` is an object
/// holding one.
pub fn get_field<'a>(m: &'a Message, key: &str) -> (r: Option<&'a Message>)
    ensures
        match r {
            Some(x) => obj_lookup(m@, key.spec_bytes()) == Some(x@),
            None => obj_lookup(m@, key.spec_bytes()) is None,
        },
{
    match m {
        Message::Obj(fields) => match field_index(fields, key) {
            Some(i) => Some(&fields[i].1),
            None => None,
        },
        _ => None,
    }
}

/// Moves the value of the first field named `key` out of `m`, if `m` is an
/// object holding one.
pub fn take_field(m: Message, key: &str) -> (r: Option<Message>)
    ensures
        match r {
            Some(x) => obj_lookup(m@, key.spec_bytes()) == Some(x@),
            None => obj_lookup(m@, key.spec_bytes()) is None,
        },
{
    match m {
        Message::Obj(fields) => {
            let mut fields = fields;
            match field_index(&fields, key) {
                Some(i) => {
                    let pair = fields.remove(i);
                    Some(pair.1)
                },
                None => None,
            }
        },
        _ => None,
    }
}

/// The model of a bare command: an object with the single field
/// `"execute": name`.
pub open spec fn execute_val(name: Seq<u8>) -> Val {
    Val::Obj(seq![(key_execute(), Val::Str(name))])
}

/// Builds the bare command message `{"execute": name}`.
pub fn execute_command(name: &str) -> (m: Message)
    ensures
        m@ == execute_val(name.spec_bytes()),
{
    let mut fields: Vec<(Vec<u8>, Message)> = Vec::new();
    fields.push(("execute".as_bytes_vec(), Message::Str(name.as_bytes_vec())));
    let m = Message::Obj(fields);
    proof {
        lemma_view_fields(fields@);
        assert(view_fields(fields@) =~= seq![(key_execute(), Val::Str(name.spec_bytes()))]);
    }
    m
}

} // verus!
