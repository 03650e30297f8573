use vstd::prelude::*;
use crate::text::{chars_of, push_char, string_of};

verus! {

broadcast use vstd::std_specs::vec::group_vec_axioms;

/// The mathematical form of a value tree.
pub enum Val {
    Int(i32),
    /// A float, held as its decimal literal.
    Float(Seq<char>),
    Str(Seq<char>),
    Obj(Seq<(Seq<char>, Val)>),
    List(Seq<Val>),
}

/// The kinds of value, as named by a type error.
#[derive(Clone, Copy, Debug, PartialEq, Eq, Structural)]
pub enum ValueKind {
    Int,
    Float,
    String,
    Object,
    List,
}

pub open spec fn kind_of(v: Val) -> ValueKind {
    match v {
        Val::Int(_) => ValueKind::Int,
        Val::Float(_) => ValueKind::Float,
        Val::Str(_) => ValueKind::String,
        Val::Obj(_) => ValueKind::Object,
        Val::List(_) => ValueKind::List,
    }
}

/// Failure of a named-field accessor.
#[derive(Clone, Debug)]
pub enum FieldError {
    Unknown(String),
    WrongType(String, ValueKind),
}

/// Failure of a list accessor.
#[derive(Clone, Copy, Debug, PartialEq, Eq, Structural)]
pub enum IndexError {
    OutOfBounds(usize),
    WrongType(usize, ValueKind),
}

/// A numeric literal that does not convert to its numeric type.
#[derive(Clone, Debug)]
pub enum ValueError {
    InvalidNumber(String),
}

/// The position of the last field named `k`, or -1.
pub open spec fn key_index(fs: Seq<(Seq<char>, Val)>, k: Seq<char>) -> int
    decreases fs.len(),
{
    if fs.len() == 0 {
        -1
    } else if fs.last().0 == k {
        fs.len() - 1
    } else {
        key_index(fs.drop_last(), k)
    }
}

pub open spec fn lookup(fs: Seq<(Seq<char>, Val)>, k: Seq<char>) -> Option<Val> {
    if key_index(fs, k) >= 0 {
        Some(fs[key_index(fs, k)].1)
    } else {
        None
    }
}

/// Sets field `k` to `v`: an existing field keeps its place, a new one goes last.
pub open spec fn obj_set(fs: Seq<(Seq<char>, Val)>, k: Seq<char>, v: Val) -> Seq<(Seq<char>, Val)> {
    if key_index(fs, k) >= 0 {
        fs.update(key_index(fs, k), (k, v))
    } else {
        fs.push((k, v))
    }
}

pub open spec fn keys_unique(fs: Seq<(Seq<char>, Val)>) -> bool {
    forall|i: int, j: int| 0 <= i < j < fs.len() ==> fs[i].0 != fs[j].0
}

pub proof fn lemma_key_index_bounds(fs: Seq<(Seq<char>, Val)>, k: Seq<char>)
    ensures
        -1 <= key_index(fs, k) < fs.len(),
        key_index(fs, k) >= 0 ==> fs[key_index(fs, k)].0 == k,
        key_index(fs, k) < 0 ==> forall|i: int| 0 <= i < fs.len() ==> fs[i].0 != k,
    decreases fs.len(),
{
    if fs.len() > 0 && fs.last().0 != k {
        lemma_key_index_bounds(fs.drop_last(), k);
        assert forall|i: int| 0 <= i < fs.len() && key_index(fs, k) < 0 implies fs[i].0 != k by {
            if i < fs.len() - 1 {
                assert(fs.drop_last()[i] == fs[i]);
            }
        }
    }
}

pub proof fn lemma_obj_set_unique(fs: Seq<(Seq<char>, Val)>, k: Seq<char>, v: Val)
    requires
        keys_unique(fs),
    ensures
        keys_unique(obj_set(fs, k, v)),
{
    lemma_key_index_bounds(fs, k);
}

pub open spec fn is_digit(c: char) -> bool {
    '0' <= c && c <= '9'
}

pub open spec fn digit_value(c: char) -> int {
    c as int - '0' as int
}

pub open spec fn all_digits(s: Seq<char>) -> bool {
    forall|i: int| 0 <= i < s.len() ==> is_digit(#[trigger] s[i])
}

/// The number that a string of decimal digits denotes.
pub open spec fn decimal(s: Seq<char>) -> int
    decreases s.len(),
{
    if s.len() == 0 {
        0
    } else {
        10 * decimal(s.drop_last()) + digit_value(s.last())
    }
}

/// The magnitude and sign of an integer literal: an optional `+` or `-`, then digits.
pub open spec fn int_digits(s: Seq<char>) -> Seq<char> {
    if s.len() > 0 && (s[0] == '+' || s[0] == '-') {
        s.drop_first()
    } else {
        s
    }
}

pub open spec fn int_negative(s: Seq<char>) -> bool {
    s.len() > 0 && s[0] == '-'
}

pub open spec fn int_literal_value(s: Seq<char>) -> int {
    if int_negative(s) {
        -decimal(int_digits(s))
    } else {
        decimal(int_digits(s))
    }
}

/// The integer that `s` denotes as a 32-bit signed integer, if any.
pub open spec fn int_of(s: Seq<char>) -> Option<i32> {
    let d = int_digits(s);
    if d.len() > 0 && all_digits(d) && i32::MIN <= int_literal_value(s) <= i32::MAX {
        Some(int_literal_value(s) as i32)
    } else {
        None
    }
}

pub open spec fn count_periods(s: Seq<char>) -> nat
    decreases s.len(),
{
    if s.len() == 0 {
        0
    } else {
        count_periods(s.drop_last()) + if s.last() == '.' { 1nat } else { 0nat }
    }
}

/// A float literal: a digit, then digits and at most one period.
pub open spec fn is_float_literal(s: Seq<char>) -> bool {
    &&& s.len() > 0
    &&& is_digit(s[0])
    &&& forall|i: int| 0 <= i < s.len() ==> is_digit(#[trigger] s[i]) || s[i] == '.'
    &&& count_periods(s) <= 1
}

pub proof fn lemma_decimal_grows(s: Seq<char>, n: int)
    requires
        0 <= n <= s.len(),
        all_digits(s),
    ensures
        0 <= decimal(s.subrange(0, n)) <= decimal(s),
    decreases s.len() - n,
{
    if n < s.len() {
        lemma_decimal_grows(s, n + 1);
        let t = s.subrange(0, n + 1);
        assert(t.drop_last() =~= s.subrange(0, n));
        assert(is_digit(s[n]));
    } else {
        assert(s.subrange(0, n) =~= s);
        lemma_decimal_nonneg(s);
    }
}

pub proof fn lemma_decimal_nonneg(s: Seq<char>)
    requires
        all_digits(s),
    ensures
        decimal(s) >= 0,
    decreases s.len(),
{
    if s.len() > 0 {
        assert(is_digit(s.last()));
        lemma_decimal_nonneg(s.drop_last());
    }
}

/// A list of values.
#[derive(Debug)]
pub struct CoolDataList(Vec<CoolDataType>);

/// An object: fields by name.
#[derive(Debug)]
pub struct CoolDataObject(Vec<(String, CoolDataType)>);

/// A value of the tree.
#[derive(Debug)]
pub enum CoolDataType {
    Int(i32),
    /// A float, held as its decimal literal (see [`CoolDataType::float`]).
    Float(String),
    String(String),
    Object(CoolDataObject),
    List(CoolDataList),
}

impl CoolDataType {
    pub open spec fn view(&self) -> Val
        decreases self,
    {
        match self {
            CoolDataType::Int(n) => Val::Int(*n),
            CoolDataType::Float(s) => Val::Float(s@),
            CoolDataType::String(s) => Val::Str(s@),
            CoolDataType::Object(o) => Val::Obj(o.view()),
            CoolDataType::List(l) => Val::List(l.view()),
        }
    }

    /// The integer value of a literal, as `str::parse::<i32>` reads it.
    pub fn integer(val: &str) -> (r: Result<CoolDataType, ValueError>)
        ensures
            match int_of(val@) {
                Some(n) => r matches Ok(v) && v@ == Val::Int(n),
                None => r matches Err(ValueError::InvalidNumber(t)) && t@ == val@,
            },
    {
        let cs = chars_of(val);
        let mut start: usize = 0;
        let mut negative = false;
        if cs.len() > 0 && (cs[0] == '+' || cs[0] == '-') {
            negative = cs[0] == '-';
            start = 1;
        }
        let ghost d = int_digits(val@);
        assert(negative == int_negative(val@));
        assert(d =~= cs@.subrange(start as int, cs@.len() as int));
        if start >= cs.len() {
            return Err(ValueError::InvalidNumber(string_of(&cs)));
        }
        let mut acc: i64 = 0;
        let mut i: usize = start;
        while i < cs.len()
            invariant
                start <= i <= cs@.len(),
                cs@ == val@,
                d == int_digits(val@),
                negative == int_negative(val@),
                d =~= cs@.subrange(start as int, cs@.len() as int),
                all_digits(d.subrange(0, i - start)),
                acc == decimal(d.subrange(0, i - start)),
                0 <= acc <= 2147483648,
            decreases cs@.len() - i,
        {
            let c = cs[i];
            if !('0' <= c && c <= '9') {
                assert(d[i - start] == c);
                assert(!is_digit(d[i - start]));
                assert(!all_digits(d));
                return Err(ValueError::InvalidNumber(string_of(&cs)));
            }
            let ghost p = d.subrange(0, i + 1 - start);
            assert(p.drop_last() =~= d.subrange(0, i - start));
            acc = acc * 10 + (c as u32 - '0' as u32) as i64;
            i += 1;
            assert(all_digits(d.subrange(0, i - start)));
            if acc > 2147483648 {
                proof {
                    if all_digits(d) {
                        lemma_decimal_grows(d, i - start);
                        assert(decimal(d) > 2147483648);
                        assert(int_literal_value(val@) > i32::MAX || int_literal_value(val@) < i32::MIN);
                    }
                }
                return Err(ValueError::InvalidNumber(string_of(&cs)));
            }
        }
        assert(d.subrange(0, d.len() as int) =~= d);
        if negative {
            Ok(CoolDataType::Int((-acc) as i32))
        } else if acc <= 2147483647 {
            Ok(CoolDataType::Int(acc as i32))
        } else {
            Err(ValueError::InvalidNumber(string_of(&cs)))
        }
    }

    /// A float value from its decimal literal: a digit, then digits and at most one period.
    pub fn float(val: &str) -> (r: Result<CoolDataType, ValueError>)
        ensures
            is_float_literal(val@) ==> (r matches Ok(v) && v@ == Val::Float(val@)),
            !is_float_literal(val@) ==> (r matches Err(ValueError::InvalidNumber(t)) && t@ == val@),
    {
        let cs = chars_of(val);
        if cs.len() == 0 || !('0' <= cs[0] && cs[0] <= '9') {
            return Err(ValueError::InvalidNumber(string_of(&cs)));
        }
        let mut periods: usize = 0;
        let mut i: usize = 0;
        while i < cs.len()
            invariant
                i <= cs@.len(),
                cs@ == val@,
                periods == count_periods(cs@.subrange(0, i as int)),
                periods <= 1,
                forall|j: int| 0 <= j < i ==> is_digit(#[trigger] cs@[j]) || cs@[j] == '.',
            decreases cs@.len() - i,
        {
            let c = cs[i];
            assert(cs@.subrange(0, i + 1).drop_last() =~= cs@.subrange(0, i as int));
            if c == '.' {
                if periods == 1 {
                    assert(count_periods(cs@.subrange(0, i + 1)) == 2);
                    proof { lemma_periods_grow(cs@, i + 1); }
                    return Err(ValueError::InvalidNumber(string_of(&cs)));
                }
                periods += 1;
            } else if !('0' <= c && c <= '9') {
                return Err(ValueError::InvalidNumber(string_of(&cs)));
            }
            i += 1;
        }
        assert(cs@.subrange(0, cs@.len() as int) =~= cs@);
        Ok(CoolDataType::Float(string_of(&cs)))
    }
}

/// How a named-field accessor that wants a `want` fails on `fs`.
pub open spec fn field_error(fs: Seq<(Seq<char>, Val)>, name: Seq<char>, want: ValueKind, e: FieldError) -> bool {
    match lookup(fs, name) {
        None => e matches FieldError::Unknown(n) && n@ == name,
        Some(v) => kind_of(v) != want && (e matches FieldError::WrongType(n, k) && n@ == name && k == want),
    }
}

/// How a list accessor that wants a `want` fails on `vs`.
pub open spec fn index_error(vs: Seq<Val>, index: usize, want: ValueKind, e: IndexError) -> bool {
    if index >= vs.len() {
        e == IndexError::OutOfBounds(index)
    } else {
        kind_of(vs[index as int]) != want && e == IndexError::WrongType(index, want)
    }
}

impl CoolDataList {
    pub closed spec fn view(&self) -> Seq<Val>
        decreases self,
    {
        Seq::new(
            self.0@.len(),
            |i: int|
                if 0 <= i < self.0@.len() {
                    self.0[i].view()
                } else {
                    Val::Int(0)
                },
        )
    }

    /// An empty list.
    pub fn new() -> (r: CoolDataList)
        ensures
            r@ == Seq::<Val>::empty(),
    {
        let r = CoolDataList(Vec::new());
        assert(r@ =~= Seq::<Val>::empty());
        r
    }

    pub fn len(&self) -> (r: usize)
        ensures
            r == self@.len(),
    {
        self.0.len()
    }

    /// Appends a value at the end.
    pub fn push(&mut self, value: CoolDataType)
        ensures
            final(self)@ == old(self)@.push(value@),
    {
        let ghost v = value@;
        self.0.push(value);
        assert(self@ =~= old(self)@.push(v));
    }

    /// The value at `index`.
    pub fn at(&self, index: usize) -> (r: Result<&CoolDataType, IndexError>)
        ensures
            index < self@.len() ==> (r matches Ok(v) && v@ == self@[index as int]),
            index >= self@.len() ==> r == Err::<&CoolDataType, IndexError>(IndexError::OutOfBounds(index)),
    {
        if index < self.0.len() {
            Ok(&self.0[index])
        } else {
            Err(IndexError::OutOfBounds(index))
        }
    }

    /// The value at `index`, for editing in place.
    pub fn at_mut(&mut self, index: usize) -> (r: Result<&mut CoolDataType, IndexError>)
        ensures
            index < old(self)@.len() ==> (r is Ok && (*r->Ok_0)@ == old(self)@[index as int]
                && final(self)@ == old(self)@.update(index as int, (*final(r->Ok_0))@)),
            index >= old(self)@.len() ==> (r is Err && r->Err_0 == IndexError::OutOfBounds(index)
                && final(self)@ == old(self)@),
    {
        if index < self.0.len() {
            let e = &mut self.0[index];
            Ok(e)
        } else {
            Err(IndexError::OutOfBounds(index))
        }
    }

    /// The integer at `index`, for editing in place.
    pub fn int_at_mut(&mut self, index: usize) -> (r: Result<&mut i32, IndexError>)
        ensures
            r is Ok <==> (index < old(self)@.len() && kind_of(old(self)@[index as int]) == ValueKind::Int),
            r is Ok ==> old(self)@[index as int] == Val::Int(*r->Ok_0)
                && final(self)@ == old(self)@.update(index as int, Val::Int(*final(r->Ok_0))),
            r is Err ==> index_error(old(self)@, index, ValueKind::Int, r->Err_0) && final(self)@ == old(self)@,
    {
        proof {
            if index < self@.len() {
                assert(self@.update(index as int, self@[index as int]) =~= self@);
            }
        }
        match self.at_mut(index) {
            Ok(CoolDataType::Int(x)) => Ok(x),
            Ok(_) => Err(IndexError::WrongType(index, ValueKind::Int)),
            Err(e) => Err(e),
        }
    }

    /// The float literal at `index`, for editing in place.
    pub fn float_at_mut(&mut self, index: usize) -> (r: Result<&mut String, IndexError>)
        ensures
            r is Ok <==> (index < old(self)@.len() && kind_of(old(self)@[index as int]) == ValueKind::Float),
            r is Ok ==> old(self)@[index as int] == Val::Float((*r->Ok_0)@)
                && final(self)@ == old(self)@.update(index as int, Val::Float((*final(r->Ok_0))@)),
            r is Err ==> index_error(old(self)@, index, ValueKind::Float, r->Err_0) && final(self)@ == old(self)@,
    {
        proof {
            if index < self@.len() {
                assert(self@.update(index as int, self@[index as int]) =~= self@);
            }
        }
        match self.at_mut(index) {
            Ok(CoolDataType::Float(x)) => Ok(x),
            Ok(_) => Err(IndexError::WrongType(index, ValueKind::Float)),
            Err(e) => Err(e),
        }
    }

    /// The string at `index`, for editing in place.
    pub fn string_at_mut(&mut self, index: usize) -> (r: Result<&mut String, IndexError>)
        ensures
            r is Ok <==> (index < old(self)@.len() && kind_of(old(self)@[index as int]) == ValueKind::String),
            r is Ok ==> old(self)@[index as int] == Val::Str((*r->Ok_0)@)
                && final(self)@ == old(self)@.update(index as int, Val::Str((*final(r->Ok_0))@)),
            r is Err ==> index_error(old(self)@, index, ValueKind::String, r->Err_0) && final(self)@ == old(self)@,
    {
        proof {
            if index < self@.len() {
                assert(self@.update(index as int, self@[index as int]) =~= self@);
            }
        }
        match self.at_mut(index) {
            Ok(CoolDataType::String(x)) => Ok(x),
            Ok(_) => Err(IndexError::WrongType(index, ValueKind::String)),
            Err(e) => Err(e),
        }
    }

    /// The object at `index`, for editing in place.
    pub fn object_at_mut(&mut self, index: usize) -> (r: Result<&mut CoolDataObject, IndexError>)
        ensures
            r is Ok <==> (index < old(self)@.len() && kind_of(old(self)@[index as int]) == ValueKind::Object),
            r is Ok ==> old(self)@[index as int] == Val::Obj((*r->Ok_0)@)
                && final(self)@ == old(self)@.update(index as int, Val::Obj((*final(r->Ok_0))@)),
            r is Err ==> index_error(old(self)@, index, ValueKind::Object, r->Err_0) && final(self)@ == old(self)@,
    {
        proof {
            if index < self@.len() {
                assert(self@.update(index as int, self@[index as int]) =~= self@);
            }
        }
        match self.at_mut(index) {
            Ok(CoolDataType::Object(x)) => Ok(x),
            Ok(_) => Err(IndexError::WrongType(index, ValueKind::Object)),
            Err(e) => Err(e),
        }
    }

    /// The list at `index`, for editing in place.
    pub fn list_at_mut(&mut self, index: usize) -> (r: Result<&mut CoolDataList, IndexError>)
        ensures
            r is Ok <==> (index < old(self)@.len() && kind_of(old(self)@[index as int]) == ValueKind::List),
            r is Ok ==> old(self)@[index as int] == Val::List((*r->Ok_0)@)
                && final(self)@ == old(self)@.update(index as int, Val::List((*final(r->Ok_0))@)),
            r is Err ==> index_error(old(self)@, index, ValueKind::List, r->Err_0) && final(self)@ == old(self)@,
    {
        proof {
            if index < self@.len() {
                assert(self@.update(index as int, self@[index as int]) =~= self@);
            }
        }
        match self.at_mut(index) {
            Ok(CoolDataType::List(x)) => Ok(x),
            Ok(_) => Err(IndexError::WrongType(index, ValueKind::List)),
            Err(e) => Err(e),
        }
    }

    /// The integer at `index`.
    pub fn int_at(&self, index: usize) -> (r: Result<&i32, IndexError>)
        ensures
            r matches Ok(n) ==> index < self@.len() && self@[index as int] == Val::Int(*n),
            r matches Err(e) ==> index_error(self@, index, ValueKind::Int, e),
            r is Ok <==> (index < self@.len() && kind_of(self@[index as int]) == ValueKind::Int),
    {
        match self.at(index)? {
            CoolDataType::Int(n) => Ok(n),
            _ => Err(IndexError::WrongType(index, ValueKind::Int)),
        }
    }

    /// The float literal at `index`.
    pub fn float_at(&self, index: usize) -> (r: Result<&String, IndexError>)
        ensures
            r matches Ok(s) ==> index < self@.len() && self@[index as int] == Val::Float(s@),
            r matches Err(e) ==> index_error(self@, index, ValueKind::Float, e),
            r is Ok <==> (index < self@.len() && kind_of(self@[index as int]) == ValueKind::Float),
    {
        match self.at(index)? {
            CoolDataType::Float(s) => Ok(s),
            _ => Err(IndexError::WrongType(index, ValueKind::Float)),
        }
    }

    /// The string at `index`.
    pub fn string_at(&self, index: usize) -> (r: Result<&String, IndexError>)
        ensures
            r matches Ok(s) ==> index < self@.len() && self@[index as int] == Val::Str(s@),
            r matches Err(e) ==> index_error(self@, index, ValueKind::String, e),
            r is Ok <==> (index < self@.len() && kind_of(self@[index as int]) == ValueKind::String),
    {
        match self.at(index)? {
            CoolDataType::String(s) => Ok(s),
            _ => Err(IndexError::WrongType(index, ValueKind::String)),
        }
    }

    /// The object at `index`.
    pub fn object_at(&self, index: usize) -> (r: Result<&CoolDataObject, IndexError>)
        ensures
            r matches Ok(o) ==> index < self@.len() && self@[index as int] == Val::Obj(o@),
            r matches Err(e) ==> index_error(self@, index, ValueKind::Object, e),
            r is Ok <==> (index < self@.len() && kind_of(self@[index as int]) == ValueKind::Object),
    {
        match self.at(index)? {
            CoolDataType::Object(o) => Ok(o),
            _ => Err(IndexError::WrongType(index, ValueKind::Object)),
        }
    }

    /// The list at `index`.
    pub fn list_at(&self, index: usize) -> (r: Result<&CoolDataList, IndexError>)
        ensures
            r matches Ok(l) ==> index < self@.len() && self@[index as int] == Val::List(l@),
            r matches Err(e) ==> index_error(self@, index, ValueKind::List, e),
            r is Ok <==> (index < self@.len() && kind_of(self@[index as int]) == ValueKind::List),
    {
        match self.at(index)? {
            CoolDataType::List(l) => Ok(l),
            _ => Err(IndexError::WrongType(index, ValueKind::List)),
        }
    }
}

impl CoolDataObject {
    pub closed spec fn view(&self) -> Seq<(Seq<char>, Val)>
        decreases self,
    {
        Seq::new(
            self.0@.len(),
            |i: int|
                if 0 <= i < self.0@.len() {
                    (self.0[i].0@, self.0[i].1.view())
                } else {
                    (Seq::empty(), Val::Int(0))
                },
        )
    }

    /// An object without fields.
    pub fn new() -> (r: CoolDataObject)
        ensures
            r@ == Seq::<(Seq<char>, Val)>::empty(),
    {
        let r = CoolDataObject(Vec::new());
        assert(r@ =~= Seq::<(Seq<char>, Val)>::empty());
        r
    }

    /// The number of fields.
    pub fn len(&self) -> (r: usize)
        ensures
            r == self@.len(),
    {
        self.0.len()
    }

    /// The position of the last field named `name`, if any.
    fn position(&self, name: &String) -> (r: Option<usize>)
        ensures
            match r {
                Some(i) => i as int == key_index(self@, name@),
                None => key_index(self@, name@) == -1,
            },
    {
        let mut i: usize = self.0.len();
        assert(self@.subrange(0, i as int) =~= self@);
        while i > 0
            invariant
                i <= self@.len(),
                self@.len() == self.0@.len(),
                key_index(self@, name@) == key_index(self@.subrange(0, i as int), name@),
            decreases i,
        {
            assert(self@.subrange(0, i as int).last() == self@[i - 1]);
            if self.0[i - 1].0 == *name {
                return Some(i - 1);
            }
            assert(self@.subrange(0, i as int).drop_last() =~= self@.subrange(0, i - 1));
            i -= 1;
        }
        None
    }

    /// Sets the field `name` to `value`; a field of that name is replaced in place.
    pub fn add_field(&mut self, name: String, value: CoolDataType)
        ensures
            final(self)@ == obj_set(old(self)@, name@, value@),
    {
        proof {
            lemma_key_index_bounds(self@, name@);
        }
        let ghost k = name@;
        let ghost v = value@;
        match self.position(&name) {
            Some(i) => {
                self.0.set(i, (name, value));
                assert(self@ =~= old(self)@.update(i as int, (k, v)));
            },
            None => {
                self.0.push((name, value));
                assert(self@ =~= old(self)@.push((k, v)));
            },
        }
    }

    /// The value of the field `name`.
    pub fn get_field(&self, name: &str) -> (r: Result<&CoolDataType, FieldError>)
        ensures
            match lookup(self@, name@) {
                Some(v) => r matches Ok(t) && t@ == v,
                None => r matches Err(FieldError::Unknown(n)) && n@ == name@,
            },
    {
        let key = String::from_str(name);
        proof {
            lemma_key_index_bounds(self@, name@);
        }
        match self.position(&key) {
            Some(i) => Ok(&self.0[i].1),
            None => Err(FieldError::Unknown(key)),
        }
    }

    /// The value of the field `name`, for editing in place.
    pub fn get_field_mut(&mut self, name: &str) -> (r: Result<&mut CoolDataType, FieldError>)
        ensures
            match lookup(old(self)@, name@) {
                Some(v) => r is Ok && (*r->Ok_0)@ == v && final(self)@ == old(self)@.update(
                    key_index(old(self)@, name@),
                    (name@, (*final(r->Ok_0))@),
                ),
                None => (r->Err_0 matches FieldError::Unknown(n) && n@ == name@) && r is Err
                    && final(self)@ == old(self)@,
            },
    {
        let key = String::from_str(name);
        proof {
            lemma_key_index_bounds(self@, name@);
        }
        match self.position(&key) {
            Some(i) => Ok(&mut self.0[i].1),
            None => Err(FieldError::Unknown(key)),
        }
    }

    /// The integer field `name`, for editing in place.
    pub fn get_int_mut(&mut self, name: &str) -> (r: Result<&mut i32, FieldError>)
        ensures
            r is Ok <==> (lookup(old(self)@, name@) matches Some(v) && kind_of(v) == ValueKind::Int),
            r is Ok ==> lookup(old(self)@, name@) == Some(Val::Int(*r->Ok_0)) && final(self)@ == old(self)@.update(
                key_index(old(self)@, name@),
                (name@, Val::Int(*final(r->Ok_0))),
            ),
            r is Err ==> field_error(old(self)@, name@, ValueKind::Int, r->Err_0) && final(self)@ == old(self)@,
    {
        proof {
            lemma_key_index_bounds(self@, name@);
            let i = key_index(self@, name@);
            if i >= 0 {
                assert(self@.update(i, (name@, self@[i].1)) =~= self@);
            }
        }
        match self.get_field_mut(name) {
            Ok(CoolDataType::Int(x)) => Ok(x),
            Ok(_) => Err(FieldError::WrongType(String::from_str(name), ValueKind::Int)),
            Err(e) => Err(e),
        }
    }

    /// The float literal field `name`, for editing in place.
    pub fn get_float_mut(&mut self, name: &str) -> (r: Result<&mut String, FieldError>)
        ensures
            r is Ok <==> (lookup(old(self)@, name@) matches Some(v) && kind_of(v) == ValueKind::Float),
            r is Ok ==> lookup(old(self)@, name@) == Some(Val::Float((*r->Ok_0)@)) && final(self)@ == old(self)@.update(
                key_index(old(self)@, name@),
                (name@, Val::Float((*final(r->Ok_0))@)),
            ),
            r is Err ==> field_error(old(self)@, name@, ValueKind::Float, r->Err_0) && final(self)@ == old(self)@,
    {
        proof {
            lemma_key_index_bounds(self@, name@);
            let i = key_index(self@, name@);
            if i >= 0 {
                assert(self@.update(i, (name@, self@[i].1)) =~= self@);
            }
        }
        match self.get_field_mut(name) {
            Ok(CoolDataType::Float(x)) => Ok(x),
            Ok(_) => Err(FieldError::WrongType(String::from_str(name), ValueKind::Float)),
            Err(e) => Err(e),
        }
    }

    /// The string field `name`, for editing in place.
    pub fn get_string_mut(&mut self, name: &str) -> (r: Result<&mut String, FieldError>)
        ensures
            r is Ok <==> (lookup(old(self)@, name@) matches Some(v) && kind_of(v) == ValueKind::String),
            r is Ok ==> lookup(old(self)@, name@) == Some(Val::Str((*r->Ok_0)@)) && final(self)@ == old(self)@.update(
                key_index(old(self)@, name@),
                (name@, Val::Str((*final(r->Ok_0))@)),
            ),
            r is Err ==> field_error(old(self)@, name@, ValueKind::String, r->Err_0) && final(self)@ == old(self)@,
    {
        proof {
            lemma_key_index_bounds(self@, name@);
            let i = key_index(self@, name@);
            if i >= 0 {
                assert(self@.update(i, (name@, self@[i].1)) =~= self@);
            }
        }
        match self.get_field_mut(name) {
            Ok(CoolDataType::String(x)) => Ok(x),
            Ok(_) => Err(FieldError::WrongType(String::from_str(name), ValueKind::String)),
            Err(e) => Err(e),
        }
    }

    /// The object field `name`, for editing in place.
    pub fn get_object_mut(&mut self, name: &str) -> (r: Result<&mut CoolDataObject, FieldError>)
        ensures
            r is Ok <==> (lookup(old(self)@, name@) matches Some(v) && kind_of(v) == ValueKind::Object),
            r is Ok ==> lookup(old(self)@, name@) == Some(Val::Obj((*r->Ok_0)@)) && final(self)@ == old(self)@.update(
                key_index(old(self)@, name@),
                (name@, Val::Obj((*final(r->Ok_0))@)),
            ),
            r is Err ==> field_error(old(self)@, name@, ValueKind::Object, r->Err_0) && final(self)@ == old(self)@,
    {
        proof {
            lemma_key_index_bounds(self@, name@);
            let i = key_index(self@, name@);
            if i >= 0 {
                assert(self@.update(i, (name@, self@[i].1)) =~= self@);
            }
        }
        match self.get_field_mut(name) {
            Ok(CoolDataType::Object(x)) => Ok(x),
            Ok(_) => Err(FieldError::WrongType(String::from_str(name), ValueKind::Object)),
            Err(e) => Err(e),
        }
    }

    /// The list field `name`, for editing in place.
    pub fn get_list_mut(&mut self, name: &str) -> (r: Result<&mut CoolDataList, FieldError>)
        ensures
            r is Ok <==> (lookup(old(self)@, name@) matches Some(v) && kind_of(v) == ValueKind::List),
            r is Ok ==> lookup(old(self)@, name@) == Some(Val::List((*r->Ok_0)@)) && final(self)@ == old(self)@.update(
                key_index(old(self)@, name@),
                (name@, Val::List((*final(r->Ok_0))@)),
            ),
            r is Err ==> field_error(old(self)@, name@, ValueKind::List, r->Err_0) && final(self)@ == old(self)@,
    {
        proof {
            lemma_key_index_bounds(self@, name@);
            let i = key_index(self@, name@);
            if i >= 0 {
                assert(self@.update(i, (name@, self@[i].1)) =~= self@);
            }
        }
        match self.get_field_mut(name) {
            Ok(CoolDataType::List(x)) => Ok(x),
            Ok(_) => Err(FieldError::WrongType(String::from_str(name), ValueKind::List)),
            Err(e) => Err(e),
        }
    }

    /// The integer field `name`.
    pub fn get_int(&self, name: &str) -> (r: Result<&i32, FieldError>)
        ensures
            r matches Ok(n) ==> lookup(self@, name@) == Some(Val::Int(*n)),
            r matches Err(e) ==> field_error(self@, name@, ValueKind::Int, e),
            r is Ok <==> (lookup(self@, name@) matches Some(v) && kind_of(v) == ValueKind::Int),
    {
        match self.get_field(name)? {
            CoolDataType::Int(n) => Ok(n),
            _ => Err(FieldError::WrongType(String::from_str(name), ValueKind::Int)),
        }
    }

    /// The float field `name`, as its decimal literal.
    pub fn get_float(&self, name: &str) -> (r: Result<&String, FieldError>)
        ensures
            r matches Ok(s) ==> lookup(self@, name@) == Some(Val::Float(s@)),
            r matches Err(e) ==> field_error(self@, name@, ValueKind::Float, e),
            r is Ok <==> (lookup(self@, name@) matches Some(v) && kind_of(v) == ValueKind::Float),
    {
        match self.get_field(name)? {
            CoolDataType::Float(s) => Ok(s),
            _ => Err(FieldError::WrongType(String::from_str(name), ValueKind::Float)),
        }
    }

    /// The string field `name`.
    pub fn get_string(&self, name: &str) -> (r: Result<&String, FieldError>)
        ensures
            r matches Ok(s) ==> lookup(self@, name@) == Some(Val::Str(s@)),
            r matches Err(e) ==> field_error(self@, name@, ValueKind::String, e),
            r is Ok <==> (lookup(self@, name@) matches Some(v) && kind_of(v) == ValueKind::String),
    {
        match self.get_field(name)? {
            CoolDataType::String(s) => Ok(s),
            _ => Err(FieldError::WrongType(String::from_str(name), ValueKind::String)),
        }
    }

    /// The object field `name`.
    pub fn get_object(&self, name: &str) -> (r: Result<&CoolDataObject, FieldError>)
        ensures
            r matches Ok(o) ==> lookup(self@, name@) == Some(Val::Obj(o@)),
            r matches Err(e) ==> field_error(self@, name@, ValueKind::Object, e),
            r is Ok <==> (lookup(self@, name@) matches Some(v) && kind_of(v) == ValueKind::Object),
    {
        match self.get_field(name)? {
            CoolDataType::Object(o) => Ok(o),
            _ => Err(FieldError::WrongType(String::from_str(name), ValueKind::Object)),
        }
    }

    /// The list field `name`.
    pub fn get_list(&self, name: &str) -> (r: Result<&CoolDataList, FieldError>)
        ensures
            r matches Ok(l) ==> lookup(self@, name@) == Some(Val::List(l@)),
            r matches Err(e) ==> field_error(self@, name@, ValueKind::List, e),
            r is Ok <==> (lookup(self@, name@) matches Some(v) && kind_of(v) == ValueKind::List),
    {
        match self.get_field(name)? {
            CoolDataType::List(l) => Ok(l),
            _ => Err(FieldError::WrongType(String::from_str(name), ValueKind::List)),
        }
    }
}

pub proof fn lemma_periods_grow(s: Seq<char>, n: int)
    requires
        0 <= n <= s.len(),
    ensures
        count_periods(s.subrange(0, n)) <= count_periods(s),
    decreases s.len() - n,
{
    if n < s.len() {
        lemma_periods_grow(s, n + 1);
        assert(s.subrange(0, n + 1).drop_last() =~= s.subrange(0, n));
    } else {
        assert(s.subrange(0, n) =~= s);
    }
}

/// The pieces of `s`, one after another.
pub open spec fn concat(s: Seq<Seq<char>>) -> Seq<char>
    decreases s.len(),
{
    if s.len() == 0 {
        Seq::empty()
    } else {
        concat(s.drop_last()) + s.last()
    }
}

pub open spec fn digit_char(d: int) -> char {
    seq!['0', '1', '2', '3', '4', '5', '6', '7', '8', '9'][d]
}

/// The decimal digits of `n`.
pub open spec fn nat_text(n: nat) -> Seq<char>
    decreases n,
{
    if n < 10 {
        seq![digit_char(n as int)]
    } else {
        nat_text(n / 10).push(digit_char((n % 10) as int))
    }
}

/// The decimal text of `n`, with a `-` before a negative one.
pub open spec fn int_text(n: i32) -> Seq<char> {
    if n < 0 {
        seq!['-'] + nat_text((-n) as nat)
    } else {
        nat_text(n as nat)
    }
}

/// A field as a line of text: `name = value`.
pub open spec fn field_line(name: Seq<char>, value: Seq<char>) -> Seq<char> {
    name + seq![' ', '=', ' '] + value + seq!['\n']
}

/// A list element as text, with the separator before every element but the first.
pub open spec fn item_piece(i: int, value: Seq<char>) -> Seq<char> {
    if i == 0 {
        value
    } else {
        seq![',', ' '] + value
    }
}

/// The text of a value.
pub open spec fn render_val(v: Val) -> Seq<char>
    decreases v,
{
    match v {
        Val::Int(n) => int_text(n),
        Val::Float(t) => t,
        Val::Str(t) => seq!['"'] + t + seq!['"'],
        Val::Obj(fs) => seq!['{', '\n'] + concat(field_lines(fs)) + seq!['}'],
        Val::List(vs) => seq!['['] + concat(item_pieces(vs)) + seq![']'],
    }
}

/// The lines of an object's fields.
pub open spec fn field_lines(fs: Seq<(Seq<char>, Val)>) -> Seq<Seq<char>>
    decreases fs,
{
    Seq::new(
        fs.len(),
        |i: int|
            if 0 <= i < fs.len() {
                field_line(fs[i].0, render_val(fs[i].1))
            } else {
                Seq::empty()
            },
    )
}

/// The pieces of a list's text between its brackets.
pub open spec fn item_pieces(vs: Seq<Val>) -> Seq<Seq<char>>
    decreases vs,
{
    Seq::new(
        vs.len(),
        |i: int|
            if 0 <= i < vs.len() {
                item_piece(i, render_val(vs[i]))
            } else {
                Seq::empty()
            },
    )
}

/// The text of an object's fields, one line each.
pub open spec fn render_fields(fs: Seq<(Seq<char>, Val)>) -> Seq<char> {
    concat(field_lines(fs))
}

pub proof fn lemma_concat_push(s: Seq<Seq<char>>, x: Seq<char>)
    ensures
        concat(s.push(x)) == concat(s) + x,
{
    assert(s.push(x).drop_last() =~= s);
}

/// Appends the decimal digits of `n`.
fn write_nat(n: u32, out: &mut String)
    ensures
        final(out)@ == old(out)@ + nat_text(n as nat),
    decreases n,
{
    if n >= 10 {
        write_nat(n / 10, out);
    }
    let d = n % 10;
    let c = if d == 0 { '0' } else if d == 1 { '1' } else if d == 2 { '2' } else if d == 3 { '3' }
        else if d == 4 { '4' } else if d == 5 { '5' } else if d == 6 { '6' } else if d == 7 { '7' }
        else if d == 8 { '8' } else { '9' };
    assert(c == digit_char(d as int));
    push_char(out, c);
    if n >= 10 {
        assert(final(out)@ =~= old(out)@ + nat_text(n as nat));
    } else {
        assert(final(out)@ =~= old(out)@ + nat_text(n as nat));
    }
}

/// Appends the characters of `t`.
fn write_str(t: &String, out: &mut String)
    ensures
        final(out)@ == old(out)@ + t@,
{
    let cs = chars_of(t.as_str());
    let mut i: usize = 0;
    while i < cs.len()
        invariant
            i <= cs@.len(),
            cs@ == t@,
            out@ == old(out)@ + cs@.subrange(0, i as int),
        decreases cs@.len() - i,
    {
        push_char(out, cs[i]);
        i += 1;
        assert(out@ =~= old(out)@ + cs@.subrange(0, i as int));
    }
    assert(cs@.subrange(0, i as int) =~= cs@);
}

impl CoolDataType {
    /// Appends the text of this value.
    fn write_to(&self, out: &mut String)
        ensures
            final(out)@ == old(out)@ + render_val(self@),
        decreases self,
    {
        match self {
            CoolDataType::Int(n) => {
                if *n < 0 {
                    push_char(out, '-');
                    let m: i64 = -(*n as i64);
                    write_nat(m as u32, out);
                } else {
                    write_nat(*n as u32, out);
                }
                assert(final(out)@ =~= old(out)@ + int_text(*n));
            },
            CoolDataType::Float(t) => {
                write_str(t, out);
            },
            CoolDataType::String(t) => {
                push_char(out, '"');
                write_str(t, out);
                push_char(out, '"');
                assert(final(out)@ =~= old(out)@ + (seq!['"'] + t@ + seq!['"']));
            },
            CoolDataType::Object(o) => {
                push_char(out, '{');
                push_char(out, '\n');
                o.write_fields(out);
                push_char(out, '}');
                let ghost fs = o@;
                assert(self@ == Val::Obj(fs));
                let ghost body = render_fields(fs);
                assert(render_val(self@) == seq!['{', '\n'] + body + seq!['}']);
                assert(final(out)@ =~= old(out)@ + (seq!['{', '\n'] + body + seq!['}']));
            },
            CoolDataType::List(l) => {
                push_char(out, '[');
                l.write_items(out);
                push_char(out, ']');
                let ghost vs = l@;
                assert(self@ == Val::List(vs));
                let ghost body = concat(item_pieces(vs));
                assert(render_val(self@) == seq!['[']  + body + seq![']']);
                assert(final(out)@ =~= old(out)@ + (seq!['['] + body + seq![']']));
            },
        }
    }

    /// The text of this value.
    pub fn render(&self) -> (r: String)
        ensures
            r@ == render_val(self@),
    {
        let mut out = String::new();
        self.write_to(&mut out);
        assert(out@ =~= render_val(self@));
        out
    }
}

impl CoolDataList {
    /// Appends the elements, separated by `, `.
    fn write_items(&self, out: &mut String)
        ensures
            final(out)@ == old(out)@ + concat(item_pieces(self@)),
        decreases self,
    {
        let ghost vs = self@;
        let ghost pieces = item_pieces(vs);
        let mut i: usize = 0;
        while i < self.0.len()
            invariant
                vs == self@,
                vs.len() == self.0@.len(),
                pieces == item_pieces(vs),
                i <= vs.len(),
                out@ == old(out)@ + concat(pieces.subrange(0, i as int)),
            decreases vs.len() - i,
        {
            if i > 0 {
                push_char(out, ',');
                push_char(out, ' ');
            }
            self.0[i].write_to(out);
            proof {
                lemma_concat_push(pieces.subrange(0, i as int), pieces[i as int]);
                assert(pieces.subrange(0, i + 1) =~= pieces.subrange(0, i as int).push(pieces[i as int]));
            }
            i += 1;
            assert(out@ =~= old(out)@ + concat(pieces.subrange(0, i as int)));
        }
        assert(pieces.subrange(0, i as int) =~= pieces);
    }
}

impl CoolDataObject {
    /// Appends the fields, one line each.
    fn write_fields(&self, out: &mut String)
        ensures
            final(out)@ == old(out)@ + render_fields(self@),
        decreases self,
    {
        let ghost fs = self@;
        let ghost lines = field_lines(fs);
        let mut i: usize = 0;
        while i < self.0.len()
            invariant
                fs == self@,
                fs.len() == self.0@.len(),
                lines == field_lines(fs),
                i <= fs.len(),
                out@ == old(out)@ + concat(lines.subrange(0, i as int)),
            decreases fs.len() - i,
        {
            write_str(&self.0[i].0, out);
            push_char(out, ' ');
            push_char(out, '=');
            push_char(out, ' ');
            self.0[i].1.write_to(out);
            push_char(out, '\n');
            proof {
                lemma_concat_push(lines.subrange(0, i as int), lines[i as int]);
                assert(lines.subrange(0, i + 1) =~= lines.subrange(0, i as int).push(lines[i as int]));
            }
            i += 1;
            assert(out@ =~= old(out)@ + concat(lines.subrange(0, i as int)));
        }
        assert(lines.subrange(0, i as int) =~= lines);
    }

    /// The text of the object's fields, one `name = value` line each.
    pub fn render(&self) -> (r: String)
        ensures
            r@ == render_fields(self@),
    {
        let mut out = String::new();
        self.write_fields(&mut out);
        assert(out@ =~= render_fields(self@));
        out
    }
}

} // verus!
