//! Bencode decoding: a single left-to-right scan with a cursor.
use crate::error::BencodeError;
use crate::text::{all_digits, digits_value, int_value_of, is_digit, read_digits};
use crate::value::{
    dict_insert, lemma_values_view_push, values_view, BValue, ByteString, Dictionary, Integer,
    List, Value,
};
use core::ops::Range;
use vstd::prelude::*;
use vstd::slice::{slice_subrange, slice_to_vec};

verus! {

/// The first position at or after `pos` that holds `b`.
pub open spec fn find_from(data: Seq<u8>, pos: int, b: u8) -> Option<int>
    decreases data.len() - pos,
{
    if pos < 0 || pos >= data.len() {
        None
    } else if data[pos] == b {
        Some(pos)
    } else {
        find_from(data, pos + 1, b)
    }
}

pub proof fn lemma_find_from(data: Seq<u8>, pos: int, b: u8)
    ensures
        find_from(data, pos, b) matches Some(j) ==> 0 <= pos <= j < data.len() && data[j] == b,
    decreases data.len() - pos,
{
    if 0 <= pos < data.len() && data[pos] != b {
        lemma_find_from(data, pos + 1, b);
    }
}

/// `i<text>e` at `pos` (which holds the `i`): the text up to the first `e` must
/// be an integer of the grammar that fits in an `isize`.
pub open spec fn parse_int_at(data: Seq<u8>, pos: int) -> Option<(BValue, int)> {
    match find_from(data, pos + 1, 101u8) {
        Some(j) => match int_value_of(data.subrange(pos + 1, j)) {
            Some(x) => if isize::MIN <= x <= isize::MAX {
                Some((BValue::Int(x), j + 1))
            } else {
                None
            },
            None => None,
        },
        None => None,
    }
}

/// `<length>:<bytes>` at `pos`: the text up to the first `:` must be digits,
/// and that many bytes must follow the `:`.
pub open spec fn parse_bytes_at(data: Seq<u8>, pos: int) -> Option<(Seq<u8>, int)> {
    match find_from(data, pos, 58u8) {
        Some(j) => {
            let t = data.subrange(pos, j);
            let n = digits_value(t);
            if t.len() > 0 && all_digits(t) && j + 1 + n <= data.len() {
                Some((data.subrange(j + 1, j + 1 + n), j + 1 + n))
            } else {
                None
            }
        },
        None => None,
    }
}

/// The value that starts at `pos`, and the position just after it.
pub open spec fn parse_value(data: Seq<u8>, pos: int) -> Option<(BValue, int)>
    decreases data.len() - pos, 0int,
{
    if pos < 0 || pos >= data.len() {
        None
    } else if data[pos] == 105u8 {
        parse_int_at(data, pos)
    } else if is_digit(data[pos]) {
        match parse_bytes_at(data, pos) {
            Some((s, p)) => Some((BValue::Bytes(s), p)),
            None => None,
        }
    } else if data[pos] == 108u8 {
        match parse_list_from(data, pos + 1, Seq::empty()) {
            Some((l, p)) => Some((BValue::List(l), p)),
            None => None,
        }
    } else if data[pos] == 100u8 {
        match parse_dict_from(data, pos + 1, Seq::empty()) {
            Some((d, p)) => Some((BValue::Dict(d), p)),
            None => None,
        }
    } else {
        None
    }
}

/// List items from `pos` up to the closing `e`, appended to `acc`.
pub open spec fn parse_list_from(data: Seq<u8>, pos: int, acc: Seq<BValue>) -> Option<(Seq<BValue>, int)>
    decreases data.len() - pos, 1int,
{
    if pos < 0 || pos >= data.len() {
        None
    } else if data[pos] == 101u8 {
        Some((acc, pos + 1))
    } else {
        match parse_value(data, pos) {
            Some((v, p)) => if pos < p <= data.len() {
                parse_list_from(data, p, acc.push(v))
            } else {
                None
            },
            None => None,
        }
    }
}

/// Dictionary entries from `pos` up to the closing `e`, each inserted in key
/// order into `acc` (a repeated key keeps its last value).
pub open spec fn parse_dict_from(
    data: Seq<u8>,
    pos: int,
    acc: Seq<(Seq<u8>, BValue)>,
) -> Option<(Seq<(Seq<u8>, BValue)>, int)>
    decreases data.len() - pos, 1int,
{
    if pos < 0 || pos >= data.len() {
        None
    } else if data[pos] == 101u8 {
        Some((acc, pos + 1))
    } else {
        match parse_bytes_at(data, pos) {
            Some((k, after_key)) => if pos < after_key <= data.len() {
                match parse_value(data, after_key) {
                    Some((v, after_value)) => if after_key < after_value <= data.len() {
                        parse_dict_from(data, after_value, dict_insert(acc, k, v))
                    } else {
                        None
                    },
                    None => None,
                }
            } else {
                None
            },
            None => None,
        }
    }
}

/// What `decode` returns for `data`: the value at its start (bytes after that
/// value are not looked at).
pub open spec fn spec_decode(data: Seq<u8>) -> Option<BValue> {
    match parse_value(data, 0) {
        Some((v, _)) => Some(v),
        None => None,
    }
}

/// Reads `data[start..end]` as a bencode integer body.
fn read_int(data: &[u8], start: usize, end: usize) -> (r: Option<isize>)
    requires
        start <= end <= data@.len(),
    ensures
        ({
            let v = int_value_of(data@.subrange(start as int, end as int));
            match r {
                Some(x) => v == Some(x as int),
                None => v is None || v->0 < isize::MIN || v->0 > isize::MAX,
            }
        }),
{
    let ghost t = data@.subrange(start as int, end as int);
    if start == end {
        return None;
    }
    assert(t[0] == data@[start as int]);
    if data[start] == 45u8 {
        if start + 1 == end || data[start + 1] == 48u8 {
            proof {
                if start + 1 < end {
                    assert(t.drop_first()[0] == data@[start + 1]);
                }
            }
            return None;
        }
        assert(t.drop_first() =~= data@.subrange(start + 1, end as int));
        assert(t.drop_first()[0] == data@[start + 1]);
        match read_digits(data, start + 1, end) {
            Some(m) => {
                if m > 9223372036854775808u64 || m as i128 > (isize::MAX as i128) + 1 {
                    return None;
                }
                Some((-(m as i128)) as isize)
            },
            None => None,
        }
    } else {
        if data[start] == 48u8 && end - start > 1 {
            return None;
        }
        match read_digits(data, start, end) {
            Some(m) => {
                if m as i128 > isize::MAX as i128 {
                    return None;
                }
                Some(m as isize)
            },
            None => None,
        }
    }
}

/// (Bencode) Decoder: the input and a cursor into it.
pub struct Decoder<'a> {
    data: &'a [u8],
    i: usize,
}

/// The cursor-based parser under its other name.
pub type ValueParser<'a> = Decoder<'a>;

impl<'a> Decoder<'a> {
    /// The input.
    pub closed spec fn input(&self) -> Seq<u8> {
        self.data@
    }

    /// The cursor.
    pub closed spec fn cursor(&self) -> int {
        self.i as int
    }

    /// Create a new `Decoder` over `data`, with its cursor at `i`.
    pub fn with(data: &'a [u8], i: usize) -> (r: Self)
        ensures
            r.input() == data@,
            r.cursor() == i,
    {
        Self { data, i }
    }

    /// Get the byte at the cursor.
    pub fn at(&self) -> (r: Result<&u8, BencodeError>)
        ensures
            self.cursor() < self.input().len() ==> r is Ok && *r->Ok_0 == self.input()[self.cursor()],
            self.cursor() >= self.input().len() ==> r == Err::<&u8, BencodeError>(BencodeError::Malformed),
    {
        if self.i < self.data.len() {
            Ok(&self.data[self.i])
        } else {
            Err(BencodeError::Malformed)
        }
    }

    /// Move the cursor `n` bytes forward.
    pub fn skip(&mut self, n: usize)
        requires
            old(self).cursor() + n <= usize::MAX,
        ensures
            final(self).input() == old(self).input(),
            final(self).cursor() == old(self).cursor() + n,
    {
        self.i = self.i + n;
    }

    /// Offset from the cursor of the first `byte` at or after it.
    pub fn find(&self, byte: u8) -> (r: Result<usize, BencodeError>)
        ensures
            match find_from(self.input(), self.cursor(), byte) {
                Some(j) => r == Ok::<usize, BencodeError>((j - self.cursor()) as usize),
                None => r == Err::<usize, BencodeError>(BencodeError::Malformed),
            },
            r is Ok ==> self.cursor() + r->Ok_0 < self.input().len(),
    {
        let mut j: usize = self.i;
        while j < self.data.len()
            invariant
                self.i <= j,
                j <= self.data@.len() || self.i > self.data@.len(),
                find_from(self.data@, self.i as int, byte) == find_from(self.data@, j as int, byte),
            decreases self.data@.len() - j,
        {
            if self.data[j] == byte {
                return Ok(j - self.i);
            }
            j = j + 1;
        }
        Err(BencodeError::Malformed)
    }

    /// Take the bytes in `range`, relative to the cursor, and move the cursor
    /// to the end of that range.
    pub fn take(&mut self, range: Range<usize>) -> (r: Result<&'a [u8], BencodeError>)
        ensures
            final(self).input() == old(self).input(),
            ({
                let lo = old(self).cursor() + range.start;
                let hi = old(self).cursor() + range.end;
                if lo <= hi <= old(self).input().len() {
                    &&& r is Ok
                    &&& r->Ok_0@ == old(self).input().subrange(lo, hi)
                    &&& final(self).cursor() == hi
                } else {
                    &&& r == Err::<&'a [u8], BencodeError>(BencodeError::Malformed)
                    &&& final(self).cursor() == old(self).cursor()
                }
            }),
    {
        let len = self.data.len();
        if range.start > range.end || range.end > len || self.i > len - range.end {
            return Err(BencodeError::Malformed);
        }
        let lo = self.i + range.start;
        let hi = self.i + range.end;
        let out = slice_subrange(self.data, lo, hi);
        self.i = hi;
        Ok(out)
    }

    /// Parse the value at the cursor and move the cursor past it.
    pub fn parse(&mut self) -> (r: Result<Value, BencodeError>)
        ensures
            final(self).input() == old(self).input(),
            match parse_value(old(self).input(), old(self).cursor()) {
                Some((v, p)) => r is Ok && r->Ok_0@ == v && final(self).cursor() == p,
                None => r is Err && r->Err_0 == BencodeError::Malformed,
            },
            r is Ok ==> old(self).cursor() < final(self).cursor() <= old(self).input().len(),
        decreases old(self).input().len() - old(self).cursor(), 1int,
    {
        let byte = *self.at()?;
        if byte == 105u8 {
            let x = self.parse_integer()?;
            Ok(Value::Integer(x))
        } else if 48u8 <= byte && byte <= 57u8 {
            let s = self.parse_byte_string()?;
            Ok(Value::ByteString(s))
        } else if byte == 108u8 {
            let l = self.parse_list()?;
            Ok(Value::List(l))
        } else if byte == 100u8 {
            let d = self.parse_dictionary()?;
            Ok(Value::Dictionary(d))
        } else {
            Err(BencodeError::Malformed)
        }
    }

    /// Parse `i<decimal>e` at the cursor.
    fn parse_integer(&mut self) -> (r: Result<Integer, BencodeError>)
        requires
            old(self).cursor() < old(self).input().len(),
            old(self).input()[old(self).cursor()] == 105u8,
        ensures
            final(self).input() == old(self).input(),
            match parse_int_at(old(self).input(), old(self).cursor()) {
                Some((v, p)) => r is Ok && v == BValue::Int(r->Ok_0.0 as int) && final(self).cursor() == p,
                None => r is Err && r->Err_0 == BencodeError::Malformed,
            },
            r is Ok ==> old(self).cursor() < final(self).cursor() <= old(self).input().len(),
    {
        let ghost pos = self.i as int;
        let ghost data = self.data@;
        assert(find_from(data, pos, 101u8) == find_from(data, pos + 1, 101u8));
        proof {
            lemma_find_from(data, pos, 101u8);
        }
        let end = match self.find(101u8) {
            Ok(e) => e,
            Err(e) => return Err(e),
        };
        assert(self.data@.len() == self.data.len());
        let start = self.i + 1;
        let stop = self.i + end;
        match read_int(self.data, start, stop) {
            Some(x) => {
                self.i = stop + 1;
                Ok(Integer(x))
            },
            None => Err(BencodeError::Malformed),
        }
    }

    /// Parse `<length>:<bytes>` at the cursor.
    fn parse_byte_string(&mut self) -> (r: Result<ByteString, BencodeError>)
        ensures
            final(self).input() == old(self).input(),
            match parse_bytes_at(old(self).input(), old(self).cursor()) {
                Some((s, p)) => r is Ok && r->Ok_0@ == s && final(self).cursor() == p,
                None => r is Err && r->Err_0 == BencodeError::Malformed,
            },
            r is Ok ==> old(self).cursor() < final(self).cursor() <= old(self).input().len(),
    {
        let ghost data = self.data@;
        proof {
            lemma_find_from(data, self.i as int, 58u8);
        }
        let end = match self.find(58u8) {
            Ok(e) => e,
            Err(e) => return Err(e),
        };
        assert(self.data@.len() == self.data.len());
        let start = self.i;
        let colon = self.i + end;
        let ghost t = data.subrange(start as int, colon as int);
        match read_digits(self.data, start, colon) {
            Some(n) => {
                let room = self.data.len() - (colon + 1);
                if n > room as u64 {
                    return Err(BencodeError::Malformed);
                }
                let n = n as usize;
                let out = slice_to_vec(slice_subrange(self.data, colon + 1, colon + 1 + n));
                self.i = colon + 1 + n;
                Ok(ByteString(out))
            },
            None => {
                proof {
                    if t.len() > 0 && all_digits(t) {
                        assert(digits_value(t) > u64::MAX);
                    }
                }
                Err(BencodeError::Malformed)
            },
        }
    }

    /// Parse `l<value>*e` at the cursor.
    fn parse_list(&mut self) -> (r: Result<List, BencodeError>)
        requires
            old(self).cursor() < old(self).input().len(),
        ensures
            final(self).input() == old(self).input(),
            match parse_list_from(old(self).input(), old(self).cursor() + 1, Seq::empty()) {
                Some((l, p)) => r is Ok && r->Ok_0@ == l && final(self).cursor() == p,
                None => r is Err && r->Err_0 == BencodeError::Malformed,
            },
            r is Ok ==> old(self).cursor() < final(self).cursor() <= old(self).input().len(),
        decreases old(self).input().len() - old(self).cursor(), 0int,
    {
        let ghost data = self.data@;
        let ghost first = self.i + 1;
        let mut val: Vec<Value> = Vec::new();
        assert(self.data@.len() == self.data.len());
        self.skip(1);
        loop
            invariant
                self.data@ == data,
                first <= self.i <= data.len(),
                first == old(self).cursor() + 1,
                old(self).input() == data,
                parse_list_from(data, first, Seq::empty())
                    == parse_list_from(data, self.i as int, values_view(val@)),
            decreases data.len() - self.i,
        {
            let b = *self.at()?;
            if b == 101u8 {
                assert(self.data@.len() == self.data.len());
                self.skip(1);
                return Ok(List(val));
            }
            let v = self.parse()?;
            proof {
                lemma_values_view_push(val@, v);
            }
            val.push(v);
        }
    }

    /// Parse `d(<byte string><value>)*e` at the cursor.
    fn parse_dictionary(&mut self) -> (r: Result<Dictionary, BencodeError>)
        requires
            old(self).cursor() < old(self).input().len(),
        ensures
            final(self).input() == old(self).input(),
            match parse_dict_from(old(self).input(), old(self).cursor() + 1, Seq::empty()) {
                Some((d, p)) => r is Ok && r->Ok_0@ == d && final(self).cursor() == p,
                None => r is Err && r->Err_0 == BencodeError::Malformed,
            },
            r is Ok ==> old(self).cursor() < final(self).cursor() <= old(self).input().len(),
        decreases old(self).input().len() - old(self).cursor(), 0int,
    {
        let ghost data = self.data@;
        let ghost first = self.i + 1;
        let mut val = Dictionary::new();
        assert(self.data@.len() == self.data.len());
        self.skip(1);
        loop
            invariant
                self.data@ == data,
                first <= self.i <= data.len(),
                first == old(self).cursor() + 1,
                old(self).input() == data,
                parse_dict_from(data, first, Seq::empty()) == parse_dict_from(data, self.i as int, val@),
            decreases data.len() - self.i,
        {
            let b = *self.at()?;
            if b == 101u8 {
                assert(self.data@.len() == self.data.len());
                self.skip(1);
                return Ok(val);
            }
            let key = self.parse_byte_string()?;
            let value = self.parse()?;
            val.insert(key, value);
        }
    }
}

/// Decode the bencoded value at the start of `data`.
pub fn decode(data: &[u8]) -> (r: Result<Value, BencodeError>)
    ensures
        match spec_decode(data@) {
            Some(v) => r is Ok && r->Ok_0@ == v,
            None => r == Err::<Value, BencodeError>(BencodeError::Malformed),
        },
{
    let mut d = Decoder::with(data, 0);
    d.parse()
}

impl Value {
    /// Parse bencode from a slice of bytes.
    pub fn from_bytes(contents: &[u8]) -> (r: Result<Self, BencodeError>)
        ensures
            match spec_decode(contents@) {
                Some(v) => r is Ok && r->Ok_0@ == v,
                None => r == Err::<Value, BencodeError>(BencodeError::Malformed),
            },
    {
        decode(contents)
    }
}

} // verus!
