use crate::lease_cache::TaggedObjectId;
use vstd::prelude::*;

verus! {

/// Whether `c` has the Unicode property White_Space.
pub open spec fn is_white_space(c: char) -> bool {
    let u = c as u32;
    ||| 0x9 <= u <= 0xD
    ||| u == 0x20
    ||| u == 0x85
    ||| u == 0xA0
    ||| u == 0x1680
    ||| 0x2000 <= u <= 0x200A
    ||| u == 0x2028
    ||| u == 0x2029
    ||| u == 0x202F
    ||| u == 0x205F
    ||| u == 0x3000
}

/// `s` without its leading White_Space characters.
pub open spec fn trim_start_of(s: Seq<char>) -> Seq<char>
    decreases s.len(),
{
    if s.len() > 0 && is_white_space(s[0]) {
        trim_start_of(s.drop_first())
    } else {
        s
    }
}

/// `s` without its trailing White_Space characters.
pub open spec fn trim_end_of(s: Seq<char>) -> Seq<char>
    decreases s.len(),
{
    if s.len() > 0 && is_white_space(s.last()) {
        trim_end_of(s.drop_last())
    } else {
        s
    }
}

/// `s` without its leading and trailing White_Space characters.
pub open spec fn trim_of(s: Seq<char>) -> Seq<char> {
    trim_end_of(trim_start_of(s))
}

/// Relies on `str::trim`, which removes leading and trailing characters with
/// the Unicode property White_Space.
#[verifier::external_body]
fn trim_field(s: &str) -> (r: &str)
    ensures
        r@ == trim_of(s@),
{
    s.trim()
}

/// The value of digit `c` in base `radix` (`0-9`, then `a-z` or `A-Z`).
pub open spec fn digit_of(c: char, radix: u32) -> Option<nat> {
    let d: int = if '0' <= c && c <= '9' {
        c as int - '0' as int
    } else if 'a' <= c && c <= 'z' {
        c as int - 'a' as int + 10
    } else if 'A' <= c && c <= 'Z' {
        c as int - 'A' as int + 10
    } else {
        36
    };
    if d < radix {
        Some(d as nat)
    } else {
        None
    }
}

/// The value of the digit string `s` in base `radix`; `None` when a character
/// is not a digit of that base.
pub open spec fn digits_value(s: Seq<char>, radix: u32) -> Option<nat>
    decreases s.len(),
{
    if s.len() == 0 {
        Some(0)
    } else {
        match (digits_value(s.drop_last(), radix), digit_of(s.last(), radix)) {
            (Some(v), Some(d)) => Some(v * (radix as nat) + d),
            _ => None,
        }
    }
}

/// The value of an unsigned numeral: an optional `+`, then at least one digit.
pub open spec fn numeral_value(s: Seq<char>, radix: u32) -> Option<nat> {
    let body = if s.len() > 0 && s[0] == '+' {
        s.drop_first()
    } else {
        s
    };
    if body.len() == 0 {
        None
    } else {
        digits_value(body, radix)
    }
}

/// `v` when it is at most `max`.
pub open spec fn bounded(v: Option<nat>, max: nat) -> Option<nat> {
    match v {
        Some(n) => if n <= max {
            Some(n)
        } else {
            None
        },
        None => None,
    }
}

/// A record that could not be read.
#[derive(Debug, Clone, Copy, PartialEq, Eq, Structural)]
pub enum RecordError {
    /// The record has fewer fields than its format needs; the value is the
    /// number of fields it has.
    MissingField(usize),
    /// The field at this index is not a numeral of the expected base, or its
    /// value does not fit.
    BadNumber(usize),
}

/// A longer prefix keeps the value undefined, or does not lower it.
proof fn lemma_prefix_value(s: Seq<char>, k: int, radix: u32)
    requires
        0 <= k <= s.len(),
        radix >= 1,
    ensures
        digits_value(s.take(k), radix) is None ==> digits_value(s, radix) is None,
        digits_value(s.take(k), radix) matches Some(v) ==> (digits_value(s, radix) is None
            || digits_value(s, radix)->0 >= v),
    decreases s.len() - k,
{
    if k < s.len() {
        lemma_prefix_value(s, k + 1, radix);
        let p = s.take(k + 1);
        assert(p.drop_last() =~= s.take(k));
        if let Some(v) = digits_value(s.take(k), radix) {
            if let Some(w) = digits_value(p, radix) {
                assert(w >= v) by (nonlinear_arith)
                    requires
                        w == v * radix + digit_of(p.last(), radix)->0,
                        radix >= 1,
                ;
            }
        }
    } else {
        assert(s.take(k) =~= s);
    }
}

/// The value of digit `c` in base `radix`.
fn digit(c: char, radix: u32) -> (r: Option<u64>)
    requires
        2 <= radix <= 36,
    ensures
        r matches Some(d) ==> digit_of(c, radix) == Some(d as nat),
        r is None ==> digit_of(c, radix) is None,
{
    let d: u32 = if '0' <= c && c <= '9' {
        c as u32 - '0' as u32
    } else if 'a' <= c && c <= 'z' {
        c as u32 - 'a' as u32 + 10
    } else if 'A' <= c && c <= 'Z' {
        c as u32 - 'A' as u32 + 10
    } else {
        36
    };
    if d < radix {
        Some(d as u64)
    } else {
        None
    }
}

/// Reads an unsigned numeral in base `radix`: an optional `+`, then one or
/// more digits, with a value that fits in a `u64`.
pub fn parse_number(s: &str, radix: u32) -> (r: Option<u64>)
    requires
        2 <= radix <= 36,
    ensures
        r == (match bounded(numeral_value(s@, radix), u64::MAX as nat) {
            Some(v) => Some(v as u64),
            None => None,
        }),
{
    let mut chars: Vec<char> = Vec::new();
    for c in it: s.chars()
        invariant
            it.seq() == s@,
            chars@ == it.seq().take(it.index()),
            it.index() == it.seq().len() ==> chars@ == s@,
    {
        chars.push(c);
        assert(chars@ =~= it.seq().take(it.index() + 1));
        assert(it.index() + 1 == it.seq().len() ==> it.seq().take(it.index() + 1) =~= it.seq());
    }
    let n = chars.len();
    let start: usize = if n > 0 && chars[0] == '+' {
        1
    } else {
        0
    };
    let ghost body = chars@.subrange(start as int, n as int);
    assert(body =~= (if s@.len() > 0 && s@[0] == '+' {
        s@.drop_first()
    } else {
        s@
    }));
    if start == n {
        return None;
    }
    let mut i: usize = start;
    let mut acc: u64 = 0;
    let mut overflow = false;
    assert(body.take(0) =~= Seq::<char>::empty());
    while i < n
        invariant
            start <= i <= n,
            n == chars@.len(),
            2 <= radix <= 36,
            body == chars@.subrange(start as int, n as int),
            numeral_value(s@, radix) == digits_value(body, radix),
            !overflow ==> digits_value(body.take(i - start), radix) == Some(acc as nat),
            overflow ==> (digits_value(body.take(i - start), radix) matches Some(v) && v
                > u64::MAX),
        decreases n - i,
    {
        let ghost before = body.take(i - start);
        let ghost after = body.take(i - start + 1);
        assert(after.drop_last() =~= before);
        assert(after.last() == chars@[i as int]);
        match digit(chars[i], radix) {
            None => {
                proof {
                    lemma_prefix_value(body, i - start + 1, radix);
                }
                return None;
            },
            Some(d) => {
                if !overflow {
                    match acc.checked_mul(radix as u64) {
                        Some(m) => match m.checked_add(d) {
                            Some(v) => {
                                acc = v;
                            },
                            None => {
                                overflow = true;
                            },
                        },
                        None => {
                            overflow = true;
                            assert(acc * radix + d > u64::MAX) by (nonlinear_arith)
                                requires
                                    acc * radix > u64::MAX,
                                    d >= 0,
                            ;
                        },
                    }
                } else {
                    let ghost v = digits_value(before, radix)->0;
                    assert(v * radix + d >= v) by (nonlinear_arith)
                        requires
                            radix >= 1,
                            d >= 0,
                    ;
                }
            },
        }
        i = i + 1;
    }
    assert(body.take(n - start) =~= body);
    if overflow {
        None
    } else {
        Some(acc)
    }
}

/// Reads one field of a record as a numeral of base `radix`, after trimming.
fn number_field(fields: &Vec<String>, index: usize, radix: u32) -> (r: Result<u64, RecordError>)
    requires
        index < fields@.len(),
        2 <= radix <= 36,
    ensures
        r == (match bounded(numeral_value(trim_of(fields@[index as int]@), radix), u64::MAX as nat) {
            Some(v) => Ok(v as u64),
            None => Err(RecordError::BadNumber(index)),
        }),
{
    match parse_number(trim_field(fields[index].as_str()), radix) {
        Some(v) => Ok(v),
        None => Err(RecordError::BadNumber(index)),
    }
}

/// Reads a trace record `(reference, ignored, address)`, both numbers in
/// hexadecimal, as the pair `(reference, address)`.
pub fn parse_trace_record(fields: &Vec<String>) -> (r: Result<TaggedObjectId<u64, u64>, RecordError>)
    ensures
        fields@.len() < 3 ==> r == Err::<TaggedObjectId<u64, u64>, RecordError>(
            RecordError::MissingField(fields@.len() as usize),
        ),
        fields@.len() >= 3 ==> r == (match (
            bounded(numeral_value(trim_of(fields@[0]@), 16), u64::MAX as nat),
            bounded(numeral_value(trim_of(fields@[2]@), 16), u64::MAX as nat),
        ) {
            (Some(reference), Some(address)) => Ok(TaggedObjectId(reference as u64, address as u64)),
            (None, _) => Err(RecordError::BadNumber(0)),
            (Some(_), None) => Err(RecordError::BadNumber(2)),
        }),
{
    if fields.len() < 3 {
        return Err(RecordError::MissingField(fields.len()));
    }
    let reference = match number_field(fields, 0, 16) {
        Ok(v) => v,
        Err(e) => return Err(e),
    };
    let address = match number_field(fields, 2, 16) {
        Ok(v) => v,
        Err(e) => return Err(e),
    };
    Ok(TaggedObjectId(reference, address))
}

/// Reads the integer fields of a lease record `(index, reference, short
/// lease, long lease, short-lease probability)`: the reference in decimal and
/// both leases in hexadecimal. The probability is left to the caller.
pub fn parse_lease_record(fields: &Vec<String>) -> (r: Result<(u64, usize, usize), RecordError>)
    ensures
        fields@.len() < 5 ==> r == Err::<(u64, usize, usize), RecordError>(
            RecordError::MissingField(fields@.len() as usize),
        ),
        fields@.len() >= 5 ==> r == (match (
            bounded(numeral_value(trim_of(fields@[1]@), 10), u64::MAX as nat),
            bounded(numeral_value(trim_of(fields@[2]@), 16), usize::MAX as nat),
            bounded(numeral_value(trim_of(fields@[3]@), 16), usize::MAX as nat),
        ) {
            (Some(reference), Some(short), Some(long)) => Ok(
                (reference as u64, short as usize, long as usize),
            ),
            (None, _, _) => Err(RecordError::BadNumber(1)),
            (Some(_), None, _) => Err(RecordError::BadNumber(2)),
            (Some(_), Some(_), None) => Err(RecordError::BadNumber(3)),
        }),
{
    if fields.len() < 5 {
        return Err(RecordError::MissingField(fields.len()));
    }
    let reference = match number_field(fields, 1, 10) {
        Ok(v) => v,
        Err(e) => return Err(e),
    };
    let short = match lease_field(fields, 2) {
        Ok(v) => v,
        Err(e) => return Err(e),
    };
    let long = match lease_field(fields, 3) {
        Ok(v) => v,
        Err(e) => return Err(e),
    };
    Ok((reference, short, long))
}

/// Reads a hexadecimal lease that fits in a `usize`.
fn lease_field(fields: &Vec<String>, index: usize) -> (r: Result<usize, RecordError>)
    requires
        index < fields@.len(),
    ensures
        r == (match bounded(numeral_value(trim_of(fields@[index as int]@), 16), usize::MAX as nat) {
            Some(v) => Ok(v as usize),
            None => Err(RecordError::BadNumber(index)),
        }),
{
    match number_field(fields, index, 16) {
        Ok(v) => if v <= usize::MAX as u64 {
            Ok(v as usize)
        } else {
            Err(RecordError::BadNumber(index))
        },
        Err(e) => Err(e),
    }
}

} // verus!
