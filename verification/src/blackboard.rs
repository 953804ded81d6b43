//! The blackboard: the store of named, typed values that the nodes of a tree
//! share.

use vstd::prelude::*;
use vstd::string::*;
use crate::status::RuntimeError;

verus! {

/// The kind of a value. A key keeps the kind of the first value written to it.
#[derive(Clone, Copy, Debug, PartialEq, Eq, Structural)]
pub enum Kind {
    Number,
    Boolean,
    Text,
    Opaque,
}

/// A value as contracts see it.
pub enum Datum {
    Number(i64),
    Boolean(bool),
    Text(Seq<char>),
    Opaque(Seq<u8>),
}

impl Datum {
    /// The kind of the value.
    pub open spec fn kind(self) -> Kind {
        match self {
            Datum::Number(_) => Kind::Number,
            Datum::Boolean(_) => Kind::Boolean,
            Datum::Text(_) => Kind::Text,
            Datum::Opaque(_) => Kind::Opaque,
        }
    }
}

/// A value of the blackboard.
#[derive(Debug, PartialEq, Eq)]
pub enum Value {
    /// A whole number.
    Number(i64),
    /// A truth value.
    Boolean(bool),
    /// A text.
    Text(String),
    /// Structured data that the runtime carries and does not read.
    Opaque(Vec<u8>),
}

impl View for Value {
    type V = Datum;

    open spec fn view(&self) -> Datum {
        match self {
            Value::Number(n) => Datum::Number(*n),
            Value::Boolean(b) => Datum::Boolean(*b),
            Value::Text(t) => Datum::Text(t@),
            Value::Opaque(o) => Datum::Opaque(o@),
        }
    }
}

/// Copies a sequence of bytes.
fn copy_bytes(bytes: &Vec<u8>) -> (r: Vec<u8>)
    ensures
        r@ == bytes@,
{
    let mut r: Vec<u8> = Vec::new();
    let mut i: usize = 0;
    while i < bytes.len()
        invariant
            i <= bytes.len(),
            r@ == bytes@.subrange(0, i as int),
        decreases bytes.len() - i,
    {
        r.push(bytes[i]);
        i = i + 1;
        assert(r@ =~= bytes@.subrange(0, i as int));
    }
    assert(bytes@.subrange(0, bytes.len() as int) =~= bytes@);
    r
}

/// Compares two sequences of bytes.
fn same_bytes(a: &Vec<u8>, b: &Vec<u8>) -> (r: bool)
    ensures
        r == (a@ == b@),
{
    if a.len() != b.len() {
        return false;
    }
    let mut i: usize = 0;
    while i < a.len()
        invariant
            i <= a.len(),
            a.len() == b.len(),
            forall|j: int| 0 <= j < i ==> a@[j] == b@[j],
        decreases a.len() - i,
    {
        if a[i] != b[i] {
            return false;
        }
        i = i + 1;
    }
    assert(a@ =~= b@);
    true
}

impl Value {
    /// The kind of the value.
    pub fn kind(&self) -> (k: Kind)
        ensures
            k == self@.kind(),
    {
        match self {
            Value::Number(_) => Kind::Number,
            Value::Boolean(_) => Kind::Boolean,
            Value::Text(_) => Kind::Text,
            Value::Opaque(_) => Kind::Opaque,
        }
    }

    /// A copy of the value.
    pub fn duplicate(&self) -> (v: Value)
        ensures
            v@ == self@,
    {
        match self {
            Value::Number(n) => Value::Number(*n),
            Value::Boolean(b) => Value::Boolean(*b),
            Value::Text(t) => Value::Text(t.clone()),
            Value::Opaque(o) => Value::Opaque(copy_bytes(o)),
        }
    }

    /// Tells whether two values are of one kind and hold the same.
    pub fn same(&self, other: &Value) -> (r: bool)
        ensures
            r == (self@ == other@),
    {
        match (self, other) {
            (Value::Number(a), Value::Number(b)) => *a == *b,
            (Value::Boolean(a), Value::Boolean(b)) => *a == *b,
            (Value::Text(a), Value::Text(b)) => *a == *b,
            (Value::Opaque(a), Value::Opaque(b)) => same_bytes(a, b),
            _ => false,
        }
    }
}

/// One key of the blackboard with its value.
#[derive(Debug)]
pub struct Entry {
    pub key: String,
    pub value: Value,
}

/// The position of `key` among `entries`, where it occurs.
pub open spec fn position(entries: Seq<Entry>, key: Seq<char>) -> int {
    choose|i: int| 0 <= i < entries.len() && #[trigger] entries[i].key@ == key
}

/// Tells whether `key` occurs among `entries`.
pub open spec fn occurs(entries: Seq<Entry>, key: Seq<char>) -> bool {
    exists|i: int| 0 <= i < entries.len() && #[trigger] entries[i].key@ == key
}

/// No key occurs twice among `entries`.
pub open spec fn distinct_keys(entries: Seq<Entry>) -> bool {
    forall|i: int, j: int|
        0 <= i < j < entries.len() ==> #[trigger] entries[i].key@ != #[trigger] entries[j].key@
}

/// The mapping that `entries` stand for.
pub open spec fn contents(entries: Seq<Entry>) -> Map<Seq<char>, Datum> {
    Map::new(|key: Seq<char>| occurs(entries, key), |key: Seq<char>| entries[position(entries, key)].value@)
}

/// What `board` holds after `value` is written under `key`: the write is
/// refused, and the board unchanged, where the key holds another kind.
pub open spec fn written(board: Map<Seq<char>, Datum>, key: Seq<char>, value: Datum) -> Map<Seq<char>, Datum> {
    if refused(board, key, value) {
        board
    } else {
        board.insert(key, value)
    }
}

/// A write is refused where the key already holds a value of another kind.
pub open spec fn refused(board: Map<Seq<char>, Datum>, key: Seq<char>, value: Datum) -> bool {
    board.contains_key(key) && board[key].kind() != value.kind()
}

/// A key keeps the kind of the first value written to it, whatever is
/// written to the board later, and no write removes a key.
pub proof fn law_kind_is_kept(
    board: Map<Seq<char>, Datum>,
    held: Seq<char>,
    key: Seq<char>,
    value: Datum,
)
    requires
        board.contains_key(held),
    ensures
        written(board, key, value).contains_key(held),
        written(board, key, value)[held].kind() == board[held].kind(),
{
}

/// A value that is written is read back, unless the write is refused.
pub proof fn law_read_after_write(board: Map<Seq<char>, Datum>, key: Seq<char>, value: Datum)
    requires
        !refused(board, key, value),
    ensures
        written(board, key, value).contains_key(key),
        written(board, key, value)[key] == value,
        forall|other: Seq<char>|
            other != key ==> written(board, key, value).contains_key(other) == board.contains_key(
                other,
            ),
        forall|other: Seq<char>|
            other != key && board.contains_key(other) ==> written(board, key, value)[other]
                == board[other],
{
}

/// Where a key occurs, it is found at its position.
pub proof fn lemma_position(entries: Seq<Entry>, i: int)
    requires
        distinct_keys(entries),
        0 <= i < entries.len(),
    ensures
        occurs(entries, entries[i].key@),
        position(entries, entries[i].key@) == i,
{
    let key = entries[i].key@;
    let p = position(entries, key);
    assert(entries[p].key@ == key);
    if p < i {
        assert(entries[p].key@ != entries[i].key@);
    } else if i < p {
        assert(entries[i].key@ != entries[p].key@);
    }
}

/// The shared key/value store. Each key holds one value, and keeps the kind
/// of the first value written to it.
#[derive(Debug)]
pub struct Blackboard {
    entries: Vec<Entry>,
}

impl View for Blackboard {
    type V = Map<Seq<char>, Datum>;

    closed spec fn view(&self) -> Map<Seq<char>, Datum> {
        contents(self.entries@)
    }
}

impl Blackboard {
    /// The invariant of the store: no key is held twice.
    pub closed spec fn wf(&self) -> bool {
        distinct_keys(self.entries@)
    }

    /// An empty blackboard.
    pub fn new() -> (board: Blackboard)
        ensures
            board.wf(),
            board@ == Map::<Seq<char>, Datum>::empty(),
    {
        let board = Blackboard { entries: Vec::new() };
        assert(board@ =~= Map::<Seq<char>, Datum>::empty());
        board
    }

    /// Finds the entry of `key`.
    fn find(&self, key: &String) -> (r: Option<usize>)
        requires
            self.wf(),
        ensures
            match r {
                Some(i) => i < self.entries@.len() && self.entries@[i as int].key@ == key@
                    && position(self.entries@, key@) == i && occurs(self.entries@, key@),
                None => !occurs(self.entries@, key@),
            },
    {
        let mut i: usize = 0;
        while i < self.entries.len()
            invariant
                self.wf(),
                i <= self.entries@.len(),
                forall|j: int| 0 <= j < i ==> (#[trigger] self.entries@[j]).key@ != key@,
            decreases self.entries@.len() - i,
        {
            if self.entries[i].key == *key {
                proof {
                    lemma_position(self.entries@, i as int);
                }
                return Some(i);
            }
            i = i + 1;
        }
        None
    }

    /// The number of keys.
    pub fn len(&self) -> (n: usize)
        requires
            self.wf(),
        ensures
            n == self@.dom().len(),
            self@.dom().finite(),
    {
        proof {
            self.lemma_size();
        }
        self.entries.len()
    }

    /// The keys are as many as the entries.
    proof fn lemma_size(&self)
        requires
            self.wf(),
        ensures
            self@.dom().finite(),
            self@.dom().len() == self.entries@.len(),
    {
        lemma_size_of(self.entries@);
    }

    /// Tells whether a value is held under `key`.
    pub fn contains(&self, key: &str) -> (r: bool)
        requires
            self.wf(),
        ensures
            r == self@.contains_key(key@),
    {
        let wanted = String::from_str(key);
        self.find(&wanted).is_some()
    }

    /// Reads the value under `key`. Fails with `BlackboardNotFound` where
    /// nothing is held under it.
    pub fn get(&self, key: &str) -> (r: Result<&Value, RuntimeError>)
        requires
            self.wf(),
        ensures
            match r {
                Ok(value) => self@.contains_key(key@) && value@ == self@[key@],
                Err(e) => !self@.contains_key(key@) && e == RuntimeError::BlackboardNotFound,
            },
    {
        let wanted = String::from_str(key);
        match self.find(&wanted) {
            Some(i) => Ok(&self.entries[i].value),
            None => Err(RuntimeError::BlackboardNotFound),
        }
    }

    /// Reads the number under `key`. Fails with `BlackboardNotFound` where
    /// nothing is held under it, and with `BlackboardTypeMismatch` where the
    /// value is no number.
    pub fn get_number(&self, key: &str) -> (r: Result<i64, RuntimeError>)
        requires
            self.wf(),
        ensures
            r == number_at(self@, key@),
    {
        match self.get(key) {
            Ok(Value::Number(n)) => Ok(*n),
            Ok(_) => Err(RuntimeError::BlackboardTypeMismatch),
            Err(e) => Err(e),
        }
    }

    /// Reads the truth value under `key`. Fails with `BlackboardNotFound`
    /// where nothing is held under it, and with `BlackboardTypeMismatch`
    /// where the value is no truth value.
    pub fn get_boolean(&self, key: &str) -> (r: Result<bool, RuntimeError>)
        requires
            self.wf(),
        ensures
            r == boolean_at(self@, key@),
    {
        match self.get(key) {
            Ok(Value::Boolean(b)) => Ok(*b),
            Ok(_) => Err(RuntimeError::BlackboardTypeMismatch),
            Err(e) => Err(e),
        }
    }

    /// Reads the text under `key`. Fails with `BlackboardNotFound` where
    /// nothing is held under it, and with `BlackboardTypeMismatch` where the
    /// value is no text.
    pub fn get_text(&self, key: &str) -> (r: Result<&String, RuntimeError>)
        requires
            self.wf(),
        ensures
            match r {
                Ok(text) => self@.contains_key(key@) && self@[key@] == Datum::Text(text@),
                Err(e) => if self@.contains_key(key@) {
                    !(self@[key@] is Text) && e == RuntimeError::BlackboardTypeMismatch
                } else {
                    e == RuntimeError::BlackboardNotFound
                },
            },
    {
        match self.get(key) {
            Ok(Value::Text(t)) => Ok(t),
            Ok(_) => Err(RuntimeError::BlackboardTypeMismatch),
            Err(e) => Err(e),
        }
    }

    /// Writes `value` under `key`: a new key is added with it, a key that
    /// holds a value of the same kind is overwritten. Fails with
    /// `BlackboardTypeMismatch`, and changes nothing, where the key holds a
    /// value of another kind.
    pub fn set(&mut self, key: &str, value: Value) -> (r: Result<(), RuntimeError>)
        requires
            old(self).wf(),
        ensures
            final(self).wf(),
            final(self)@ == written(old(self)@, key@, value@),
            match r {
                Ok(_) => !refused(old(self)@, key@, value@),
                Err(e) => refused(old(self)@, key@, value@) && e
                    == RuntimeError::BlackboardTypeMismatch,
            },
    {
        let wanted = String::from_str(key);
        let ghost before = self.entries@;
        match self.find(&wanted) {
            Some(i) => {
                if !same_kind(self.entries[i].value.kind(), value.kind()) {
                    return Err(RuntimeError::BlackboardTypeMismatch);
                }
                let ghost datum = value@;
                self.entries.set(i, Entry { key: wanted, value });
                proof {
                    let after = self.entries@;
                    assert(distinct_keys(after)) by {
                        assert forall|a: int, b: int| 0 <= a < b < after.len() implies after[a].key@
                            != after[b].key@ by {
                            assert(before[a].key@ != before[b].key@);
                        }
                    }
                    assert(contents(after) =~= contents(before).insert(key@, datum)) by {
                        assert forall|k: Seq<char>| occurs(after, k) == (occurs(before, k) || k
                            == key@) by {
                            if occurs(after, k) {
                                let p = position(after, k);
                                assert(before[p].key@ == k);
                            }
                            if occurs(before, k) {
                                let p = position(before, k);
                                assert(after[p].key@ == k);
                            }
                            if k == key@ {
                                assert(after[i as int].key@ == k);
                            }
                        }
                        assert forall|k: Seq<char>| occurs(after, k) implies contents(after)[k]
                            == contents(before).insert(key@, datum)[k] by {
                            let p = position(after, k);
                            lemma_position(after, p);
                            lemma_position(before, p);
                        }
                    }
                }
                Ok(())
            },
            None => {
                let ghost datum = value@;
                self.entries.push(Entry { key: wanted, value });
                proof {
                    let after = self.entries@;
                    assert(distinct_keys(after)) by {
                        assert forall|a: int, b: int| 0 <= a < b < after.len() implies after[a].key@
                            != after[b].key@ by {
                            if b < before.len() {
                                assert(before[a].key@ != before[b].key@);
                            } else {
                                assert(before[a].key@ == after[a].key@);
                                assert(!occurs(before, key@));
                            }
                        }
                    }
                    assert(contents(after) =~= contents(before).insert(key@, datum)) by {
                        assert forall|k: Seq<char>| occurs(after, k) == (occurs(before, k) || k
                            == key@) by {
                            if occurs(after, k) {
                                let p = position(after, k);
                                if p < before.len() {
                                    assert(before[p].key@ == k);
                                }
                            }
                            if occurs(before, k) {
                                let p = position(before, k);
                                assert(after[p].key@ == k);
                            }
                            if k == key@ {
                                assert(after[before.len() as int].key@ == k);
                            }
                        }
                        assert forall|k: Seq<char>| occurs(after, k) implies contents(after)[k]
                            == contents(before).insert(key@, datum)[k] by {
                            let p = position(after, k);
                            lemma_position(after, p);
                            if p < before.len() {
                                assert(before[p].key@ == k);
                                lemma_position(before, p);
                            }
                        }
                    }
                }
                Ok(())
            },
        }
    }
}

/// Tells whether two kinds are the same.
fn same_kind(a: Kind, b: Kind) -> (r: bool)
    ensures
        r == (a == b),
{
    a == b
}

/// The number under `key`, or why it cannot be read.
pub open spec fn number_at(board: Map<Seq<char>, Datum>, key: Seq<char>) -> Result<i64, RuntimeError> {
    if !board.contains_key(key) {
        Err(RuntimeError::BlackboardNotFound)
    } else {
        match board[key] {
            Datum::Number(n) => Ok(n),
            _ => Err(RuntimeError::BlackboardTypeMismatch),
        }
    }
}

/// The truth value under `key`, or why it cannot be read.
pub open spec fn boolean_at(board: Map<Seq<char>, Datum>, key: Seq<char>) -> Result<bool, RuntimeError> {
    if !board.contains_key(key) {
        Err(RuntimeError::BlackboardNotFound)
    } else {
        match board[key] {
            Datum::Boolean(b) => Ok(b),
            _ => Err(RuntimeError::BlackboardTypeMismatch),
        }
    }
}

/// Entries with distinct keys stand for as many keys as there are entries.
proof fn lemma_size_of(entries: Seq<Entry>)
    requires
        distinct_keys(entries),
    ensures
        contents(entries).dom().finite(),
        contents(entries).dom().len() == entries.len(),
    decreases entries.len(),
{
    if entries.len() == 0 {
        assert(contents(entries).dom() =~= Set::<Seq<char>>::empty());
    } else {
        let front = entries.drop_last();
        let last = entries.last();
        assert forall|i: int, j: int| 0 <= i < j < front.len() implies front[i].key@
            != front[j].key@ by {
            assert(entries[i].key@ != entries[j].key@);
        }
        lemma_size_of(front);
        assert(!occurs(front, last.key@)) by {
            if occurs(front, last.key@) {
                let p = position(front, last.key@);
                assert(entries[p].key@ != entries[entries.len() - 1].key@);
            }
        }
        assert(contents(entries).dom() =~= contents(front).dom().insert(last.key@)) by {
            assert forall|k: Seq<char>| occurs(entries, k) == (occurs(front, k) || k
                == last.key@) by {
                if occurs(entries, k) {
                    let p = position(entries, k);
                    if p < front.len() {
                        assert(front[p].key@ == k);
                    }
                }
                if occurs(front, k) {
                    let p = position(front, k);
                    assert(entries[p].key@ == k);
                }
                if k == last.key@ {
                    assert(entries[entries.len() - 1].key@ == k);
                }
            }
        }
    }
}

} // verus!
