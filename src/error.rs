//! One constraint violation: a code, an optional message and named
//! parameters.
use vstd::prelude::*;
use vstd::string::*;
use vstd::std_specs::convert::{FromSpecImpl, IntoSpec};
use crate::order::{chars_lt, str_less, lemma_chars_lt_transitive, lemma_chars_lt_total,
    lemma_chars_lt_irreflexive};
use crate::text::{decimal, signed_decimal, escaped_char, escaped_str, unsigned_text, signed_text,
    escape_char, escape_str};

verus! {

/// The value of one parameter of a [ValidationError].
#[derive(Debug)]
pub enum ParamValue {
    Bool(bool),
    I8(i8),
    I16(i16),
    I32(i32),
    I64(i64),
    I128(i128),
    U8(u8),
    U16(u16),
    U32(u32),
    U64(u64),
    U128(u128),
    Usize(usize),
    Char(char),
    String(String),
    /// Written as it is, without quotes or escapes.
    Raw(String),
}

impl ParamValue {
    /// How the value is written: numbers in decimal, a character in single
    /// quotes and a string in double quotes (both escaped), a raw string as
    /// it is.
    pub open spec fn text(&self) -> Seq<char> {
        match self {
            ParamValue::Bool(b) => if *b {
                seq!['t', 'r', 'u', 'e']
            } else {
                seq!['f', 'a', 'l', 's', 'e']
            },
            ParamValue::I8(v) => signed_decimal(*v as int),
            ParamValue::I16(v) => signed_decimal(*v as int),
            ParamValue::I32(v) => signed_decimal(*v as int),
            ParamValue::I64(v) => signed_decimal(*v as int),
            ParamValue::I128(v) => signed_decimal(*v as int),
            ParamValue::U8(v) => decimal(*v as nat),
            ParamValue::U16(v) => decimal(*v as nat),
            ParamValue::U32(v) => decimal(*v as nat),
            ParamValue::U64(v) => decimal(*v as nat),
            ParamValue::U128(v) => decimal(*v as nat),
            ParamValue::Usize(v) => decimal(*v as nat),
            ParamValue::Char(c) => seq!['\''] + escaped_char(*c) + seq!['\''],
            ParamValue::String(s) => seq!['"'] + escaped_str(s@) + seq!['"'],
            ParamValue::Raw(s) => s@,
        }
    }

    /// Writes the value as [ParamValue::text] says.
    pub fn to_text(&self) -> (r: String)
        ensures
            r@ == self.text(),
    {
        match self {
            ParamValue::Bool(b) => {
                proof {
                    reveal_strlit("true");
                    reveal_strlit("false");
                }
                if *b {
                    String::from_str("true")
                } else {
                    String::from_str("false")
                }
            },
            ParamValue::I8(v) => signed_text(*v as i128),
            ParamValue::I16(v) => signed_text(*v as i128),
            ParamValue::I32(v) => signed_text(*v as i128),
            ParamValue::I64(v) => signed_text(*v as i128),
            ParamValue::I128(v) => signed_text(*v),
            ParamValue::U8(v) => unsigned_text(*v as u128),
            ParamValue::U16(v) => unsigned_text(*v as u128),
            ParamValue::U32(v) => unsigned_text(*v as u128),
            ParamValue::U64(v) => unsigned_text(*v as u128),
            ParamValue::U128(v) => unsigned_text(*v),
            ParamValue::Usize(v) => unsigned_text(*v as u128),
            ParamValue::Char(c) => {
                proof {
                    reveal_strlit("'");
                }
                let mut r = String::from_str("'");
                r.append(escape_char(*c).as_str());
                r.append("'");
                r
            },
            ParamValue::String(s) => {
                proof {
                    reveal_strlit("\"");
                }
                let mut r = String::from_str("\"");
                r.append(escape_str(s.as_str()).as_str());
                r.append("\"");
                r
            },
            ParamValue::Raw(s) => s.clone(),
        }
    }
}

impl From<bool> for ParamValue {
    fn from(value: bool) -> Self {
        ParamValue::Bool(value)
    }
}

impl FromSpecImpl<bool> for ParamValue {
    open spec fn obeys_from_spec() -> bool {
        true
    }

    open spec fn from_spec(v: bool) -> Self {
        ParamValue::Bool(v)
    }
}

impl From<i8> for ParamValue {
    fn from(value: i8) -> Self {
        ParamValue::I8(value)
    }
}

impl FromSpecImpl<i8> for ParamValue {
    open spec fn obeys_from_spec() -> bool {
        true
    }

    open spec fn from_spec(v: i8) -> Self {
        ParamValue::I8(v)
    }
}

impl From<i16> for ParamValue {
    fn from(value: i16) -> Self {
        ParamValue::I16(value)
    }
}

impl FromSpecImpl<i16> for ParamValue {
    open spec fn obeys_from_spec() -> bool {
        true
    }

    open spec fn from_spec(v: i16) -> Self {
        ParamValue::I16(v)
    }
}

impl From<i32> for ParamValue {
    fn from(value: i32) -> Self {
        ParamValue::I32(value)
    }
}

impl FromSpecImpl<i32> for ParamValue {
    open spec fn obeys_from_spec() -> bool {
        true
    }

    open spec fn from_spec(v: i32) -> Self {
        ParamValue::I32(v)
    }
}

impl From<i64> for ParamValue {
    fn from(value: i64) -> Self {
        ParamValue::I64(value)
    }
}

impl FromSpecImpl<i64> for ParamValue {
    open spec fn obeys_from_spec() -> bool {
        true
    }

    open spec fn from_spec(v: i64) -> Self {
        ParamValue::I64(v)
    }
}

impl From<i128> for ParamValue {
    fn from(value: i128) -> Self {
        ParamValue::I128(value)
    }
}

impl FromSpecImpl<i128> for ParamValue {
    open spec fn obeys_from_spec() -> bool {
        true
    }

    open spec fn from_spec(v: i128) -> Self {
        ParamValue::I128(v)
    }
}

impl From<u8> for ParamValue {
    fn from(value: u8) -> Self {
        ParamValue::U8(value)
    }
}

impl FromSpecImpl<u8> for ParamValue {
    open spec fn obeys_from_spec() -> bool {
        true
    }

    open spec fn from_spec(v: u8) -> Self {
        ParamValue::U8(v)
    }
}

impl From<u16> for ParamValue {
    fn from(value: u16) -> Self {
        ParamValue::U16(value)
    }
}

impl FromSpecImpl<u16> for ParamValue {
    open spec fn obeys_from_spec() -> bool {
        true
    }

    open spec fn from_spec(v: u16) -> Self {
        ParamValue::U16(v)
    }
}

impl From<u32> for ParamValue {
    fn from(value: u32) -> Self {
        ParamValue::U32(value)
    }
}

impl FromSpecImpl<u32> for ParamValue {
    open spec fn obeys_from_spec() -> bool {
        true
    }

    open spec fn from_spec(v: u32) -> Self {
        ParamValue::U32(v)
    }
}

impl From<u64> for ParamValue {
    fn from(value: u64) -> Self {
        ParamValue::U64(value)
    }
}

impl FromSpecImpl<u64> for ParamValue {
    open spec fn obeys_from_spec() -> bool {
        true
    }

    open spec fn from_spec(v: u64) -> Self {
        ParamValue::U64(v)
    }
}

impl From<u128> for ParamValue {
    fn from(value: u128) -> Self {
        ParamValue::U128(value)
    }
}

impl FromSpecImpl<u128> for ParamValue {
    open spec fn obeys_from_spec() -> bool {
        true
    }

    open spec fn from_spec(v: u128) -> Self {
        ParamValue::U128(v)
    }
}

impl From<usize> for ParamValue {
    fn from(value: usize) -> Self {
        ParamValue::Usize(value)
    }
}

impl FromSpecImpl<usize> for ParamValue {
    open spec fn obeys_from_spec() -> bool {
        true
    }

    open spec fn from_spec(v: usize) -> Self {
        ParamValue::Usize(v)
    }
}

impl From<char> for ParamValue {
    fn from(value: char) -> Self {
        ParamValue::Char(value)
    }
}

impl FromSpecImpl<char> for ParamValue {
    open spec fn obeys_from_spec() -> bool {
        true
    }

    open spec fn from_spec(v: char) -> Self {
        ParamValue::Char(v)
    }
}

impl From<String> for ParamValue {
    fn from(value: String) -> Self {
        ParamValue::String(value)
    }
}

impl FromSpecImpl<String> for ParamValue {
    open spec fn obeys_from_spec() -> bool {
        true
    }

    open spec fn from_spec(v: String) -> Self {
        ParamValue::String(v)
    }
}

impl From<&'static str> for ParamValue {
    fn from(value: &'static str) -> Self {
        ParamValue::String(String::from_str(value))
    }
}

/// A string literal becomes a [ParamValue::String] that holds its
/// characters; which `String` value that is cannot be named in advance, so
/// the conversion promises no more than [ParamValue::text] of its result.
impl FromSpecImpl<&'static str> for ParamValue {
    open spec fn obeys_from_spec() -> bool {
        false
    }

    open spec fn from_spec(v: &'static str) -> Self {
        ParamValue::String(choose|s: String| s@ == v@)
    }
}

/// Describes one thing that is wrong with a validated value: a code, such
/// as `"length"` or `"range"`, an optional message, and parameters, kept in
/// the order of their names.
#[derive(Debug)]
pub struct ValidationError {
    code: String,
    message: Option<String>,
    params: Vec<(String, ParamValue)>,
}

/// The names in `params` are in strictly increasing order.
pub open spec fn params_sorted(params: Seq<(String, ParamValue)>) -> bool {
    forall|i: int, j: int|
        0 <= i < j < params.len() ==> chars_lt(#[trigger] params[i].0@, #[trigger] params[j].0@)
}

/// An index of `params` whose name is `k`, if there is one.
pub open spec fn param_index(params: Seq<(String, ParamValue)>, k: Seq<char>) -> int {
    choose|i: int| 0 <= i < params.len() && #[trigger] params[i].0@ == k
}

/// The parameters as a map from name to value.
pub open spec fn params_map(params: Seq<(String, ParamValue)>) -> Map<Seq<char>, ParamValue> {
    Map::new(
        |k: Seq<char>| exists|i: int| 0 <= i < params.len() && #[trigger] params[i].0@ == k,
        |k: Seq<char>| params[param_index(params, k)].1,
    )
}

/// In a sorted list, the entry with a given name is the one at its index.
proof fn lemma_params_map_at(params: Seq<(String, ParamValue)>, i: int)
    requires
        params_sorted(params),
        0 <= i < params.len(),
    ensures
        params_map(params).contains_key(params[i].0@),
        params_map(params)[params[i].0@] == params[i].1,
{
    let k = params[i].0@;
    assert(0 <= i < params.len() && params[i].0@ == k);
    let j = param_index(params, k);
    if j != i {
        if j < i {
            assert(chars_lt(params[j].0@, params[i].0@));
        } else {
            assert(chars_lt(params[i].0@, params[j].0@));
        }
        lemma_chars_lt_irreflexive(k);
    }
}

/// The parameters as they are written after the code and message: `: `
/// before the first, `, ` before each other one, then `name=value`.
pub open spec fn params_text(params: Seq<(String, ParamValue)>) -> Seq<char>
    decreases params.len(),
{
    if params.len() == 0 {
        seq![]
    } else {
        let separator = if params.len() == 1 {
            seq![':', ' ']
        } else {
            seq![',', ' ']
        };
        params_text(params.drop_last()) + separator + params.last().0@ + seq!['=']
            + params.last().1.text()
    }
}

impl ValidationError {
    #[verifier::type_invariant]
    spec fn inv(&self) -> bool {
        params_sorted(self.params@)
    }

    pub closed spec fn code(&self) -> Seq<char> {
        self.code@
    }

    pub closed spec fn message(&self) -> Option<Seq<char>> {
        match self.message {
            Some(m) => Some(m@),
            None => None,
        }
    }

    /// The parameters, in increasing order of their names.
    pub closed spec fn params(&self) -> Seq<(String, ParamValue)> {
        self.params@
    }

    /// The error as a report writes it: the code, then `: ` and the message
    /// if there is one, then the parameters.
    pub open spec fn text(&self) -> Seq<char> {
        self.code() + match self.message() {
            Some(m) => seq![':', ' '] + m,
            None => seq![],
        } + params_text(self.params())
    }

    /// An error with this code, no message and no parameters.
    pub fn with_code(code: &str) -> (r: Self)
        ensures
            r.code() == code@,
            r.message() == None::<Seq<char>>,
            r.params().len() == 0,
            params_sorted(r.params()),
    {
        ValidationError { code: String::from_str(code), message: None, params: Vec::new() }
    }

    /// Sets the message, replacing an earlier one.
    pub fn and_message(self, message: &str) -> (r: Self)
        ensures
            r.code() == self.code(),
            r.message() == Some(message@),
            r.params() == self.params(),
            params_sorted(r.params()),
    {
        proof {
            use_type_invariant(&self);
        }
        let ValidationError { code, message: _, params } = self;
        ValidationError { code, message: Some(String::from_str(message)), params }
    }
}


impl ValidationError {
    /// Sets one parameter, replacing an earlier value under the same name;
    /// the parameters stay in the order of their names.
    pub fn and_param<V: Into<ParamValue>>(self, key: &str, value: V) -> (r: Self)
        ensures
            r.code() == self.code(),
            r.message() == self.message(),
            params_sorted(r.params()),
            params_map(r.params()) == params_map(self.params()).insert(
                key@,
                params_map(r.params())[key@],
            ),
            V::obeys_into_spec() ==> params_map(r.params())[key@] == value.into_spec(),
    {
        proof {
            use_type_invariant(&self);
        }
        let ValidationError { code, message, mut params } = self;
        let ghost old_params = params@;
        let v: ParamValue = value.into();
        let len: usize = params.len();
        let mut i: usize = 0;
        while i < len && str_less(params[i].0.as_str(), key)
            invariant
                params@ == old_params,
                len == params@.len(),
                i <= len,
                forall|j: int| 0 <= j < i ==> chars_lt(#[trigger] params@[j].0@, key@),
            decreases len - i,
        {
            i = i + 1;
        }
        let replace = i < len && !str_less(key, params[i].0.as_str());
        if replace {
            params.remove(i);
        }
        params.insert(i, (String::from_str(key), v));
        proof {
            let np = params@;
            if i < len && !replace {
                lemma_chars_lt_total(params@[i as int + 1].0@, key@);
                assert(params@[i as int + 1] == old_params[i as int]);
                assert(chars_lt(key@, old_params[i as int].0@));
            }
            if replace {
                lemma_chars_lt_total(old_params[i as int].0@, key@);
                assert(old_params[i as int].0@ == key@);
            }
            assert forall|a: int, b: int| 0 <= a < b < np.len() implies chars_lt(
                #[trigger] np[a].0@,
                #[trigger] np[b].0@,
            ) by {
                let off: int = if replace { 0 } else { 1 };
                if b == i {
                    assert(np[a] == old_params[a]);
                } else if a == i {
                    assert(np[b] == old_params[b - off]);
                    if b - off > i {
                        assert(chars_lt(old_params[i as int].0@, old_params[b - off].0@));
                        if !replace {
                            lemma_chars_lt_transitive(key@, old_params[i as int].0@, old_params[b
                                - off].0@);
                        }
                    }
                } else if a < i {
                    if b < i {
                        assert(np[a] == old_params[a] && np[b] == old_params[b]);
                    } else {
                        assert(np[a] == old_params[a] && np[b] == old_params[b - off]);
                        assert(chars_lt(old_params[a].0@, old_params[b - off].0@));
                    }
                } else {
                    assert(np[a] == old_params[a - off] && np[b] == old_params[b - off]);
                }
            }
            let m_old = params_map(old_params);
            let m_new = params_map(np);
            lemma_params_map_at(np, i as int);
            let target = m_old.insert(key@, m_new[key@]);
            assert(np[i as int].0@ == key@);
            assert forall|k: Seq<char>|
                #[trigger] target.contains_key(k) == m_new.contains_key(k) && (
            m_new.contains_key(k) ==> m_new[k] == target[k]) by {
                let off: int = if replace { 0 } else { 1 };
                if k != key@ {
                    if m_new.contains_key(k) {
                        let a = param_index(np, k);
                        lemma_params_map_at(np, a);
                        let oa = if a < i { a } else { a - off };
                        assert(np[a] == old_params[oa]);
                        lemma_params_map_at(old_params, oa);
                    }
                    if m_old.contains_key(k) {
                        let a = param_index(old_params, k);
                        lemma_params_map_at(old_params, a);
                        let na = if a < i { a } else { a + off };
                        if replace && a == i {
                            assert(false);
                        }
                        assert(np[na] == old_params[a]);
                        lemma_params_map_at(np, na);
                    }
                }
            }
            assert(m_new =~= target);
        }
        ValidationError { code, message, params }
    }

    /// Writes the error as [ValidationError::text] says.
    pub fn to_text(&self) -> (r: String)
        ensures
            r@ == self.text(),
    {
        proof {
            reveal_strlit(": ");
            reveal_strlit(", ");
            reveal_strlit("=");
        }
        let mut out = self.code.clone();
        match &self.message {
            Some(m) => {
                out.append(": ");
                out.append(m.as_str());
            },
            None => {},
        }
        let ghost head = out@;
        let n: usize = self.params.len();
        let mut j: usize = 0;
        while j < n
            invariant
                n == self.params@.len(),
                j <= n,
                out@ == head + params_text(self.params@.subrange(0, j as int)),
            decreases n - j,
        {
            proof {
                reveal_strlit(": ");
                reveal_strlit(", ");
                reveal_strlit("=");
            }
            let ghost part = self.params@.subrange(0, j + 1);
            assert(part.drop_last() =~= self.params@.subrange(0, j as int));
            if j == 0 {
                out.append(": ");
            } else {
                out.append(", ");
            }
            out.append(self.params[j].0.as_str());
            out.append("=");
            out.append(self.params[j].1.to_text().as_str());
            assert(out@ =~= head + params_text(part));
            j = j + 1;
        }
        assert(self.params@.subrange(0, n as int) =~= self.params@);
        assert(out@ =~= self.text());
        out
    }
}

} // verus!
