//! Record parsing: one line of text into a `(key, value)` pair.
//!
//! A line must split at exactly one `;` into two non-empty fields; the first
//! field is the key, taken verbatim, and the second is a decimal value,
//! parsed by [`crate::number`]. A line that does not fit this shape fails the
//! whole run; the parser reports which of the two demands broke.

use vstd::prelude::*;

verus! {

use crate::error::LineError;
use crate::number::{
    find_byte,
    is_number,
    number_val,
    lemma_find_byte,
    lemma_find_byte_at,
    is_unsigned_number,
    is_digit,
    parse_number,
};

/// The line splits at exactly one `;` into two non-empty fields.
pub open spec fn line_split_ok(s: Seq<u8>) -> bool {
    let p = find_byte(s, 59);
    &&& 1 <= p
    &&& p + 1 < s.len()
    &&& find_byte(s.subrange(p + 1, s.len() as int), 59) < 0
}

/// The key field: everything before the first `;`.
pub open spec fn line_key(s: Seq<u8>) -> Seq<u8> {
    s.subrange(0, find_byte(s, 59))
}

/// The value field: everything after the first `;`.
pub open spec fn line_value_field(s: Seq<u8>) -> Seq<u8> {
    s.subrange(find_byte(s, 59) + 1, s.len() as int)
}

/// The line is a record: it splits cleanly and its value field is a decimal
/// number the library accepts.
pub open spec fn line_ok(s: Seq<u8>) -> bool {
    line_split_ok(s) && is_number(line_value_field(s))
}

/// The scaled value a record carries.
pub open spec fn line_val(s: Seq<u8>) -> int {
    number_val(line_value_field(s))
}

/// One line into its `(key, scaled value)` pair.
///
/// Succeeds exactly on records: the key comes back verbatim, the value as
/// its scaled integer. `Split` says the `;` structure is wrong; `Number`
/// says the split was clean but the value field is not a number.
pub fn parse_line(line: &[u8]) -> (r: Result<(Vec<u8>, i128), LineError>)
    ensures
        r is Ok <==> line_ok(line@),
        r matches Ok(kv) ==> kv.0@ == line_key(line@) && kv.1 == line_val(line@),
        r == Err::<(Vec<u8>, i128), LineError>(LineError::Split) <==> !line_split_ok(line@),
        r == Err::<(Vec<u8>, i128), LineError>(LineError::Number) <==> line_split_ok(line@)
            && !is_number(line_value_field(line@)),
{
    let n = line.len();
    // one pass: the first `;`, and whether a second one follows it
    let mut semi: usize = n;
    let mut second: bool = false;
    let mut i: usize = 0;
    while i < n
        invariant
            i <= n == line@.len(),
            semi <= n,
            semi == n ==> !second && forall|j: int| 0 <= j < i ==> line@[j] != 59,
            semi < n ==> line@[semi as int] == 59 && semi < i && forall|j: int|
                0 <= j < semi ==> line@[j] != 59,
            semi < n ==> (second <==> exists|j: int| semi < j < i && #[trigger] line@[j] == 59),
        decreases n - i,
    {
        if line[i] == 59 {
            if semi == n {
                semi = i;
            } else {
                second = true;
            }
        }
        i = i + 1;
    }
    if semi == n {
        proof {
            lemma_find_byte(line@, 59);
            if find_byte(line@, 59) >= 0 {
                assert(line@[find_byte(line@, 59)] != 59);
            }
        }
        return Err(LineError::Split);
    }
    proof {
        lemma_find_byte_at(line@, 59, semi as int);
        let rest = line@.subrange(semi as int + 1, n as int);
        lemma_find_byte(rest, 59);
        if second {
            let j = choose|j: int| semi < j < n && #[trigger] line@[j] == 59;
            assert(rest[j - semi - 1] == line@[j]);
            if find_byte(rest, 59) < 0 {
                assert(rest[j - semi - 1] != 59);
            }
        } else {
            if find_byte(rest, 59) >= 0 {
                let f = find_byte(rest, 59);
                assert(line@[f + semi + 1] == rest[f]);
            }
        }
    }
    if second || semi == 0 || semi + 1 == n {
        return Err(LineError::Split);
    }
    let value_field = vstd::slice::slice_subrange(line, semi + 1, n);
    match parse_number(value_field) {
        None => Err(LineError::Number),
        Some(v) => {
            let key = vstd::slice::slice_to_vec(vstd::slice::slice_subrange(line, 0, semi));
            Ok((key, v))
        },
    }
}

/// No byte of an accepted value field is a `;`.
pub proof fn lemma_number_no_semi(s: Seq<u8>)
    requires
        is_number(s),
    ensures
        forall|i: int| 0 <= i < s.len() ==> s[i] != 59,
{
    let body = if s[0] == 43 || s[0] == 45 {
        s.drop_first()
    } else {
        s
    };
    let off: int = if s[0] == 43 || s[0] == 45 {
        1
    } else {
        0
    };
    assert(is_unsigned_number(body));
    let d = find_byte(body, 46);
    lemma_find_byte(body, 46);
    assert forall|i: int| 0 <= i < s.len() implies s[i] != 59 by {
        if i < off {
            assert(s[i] == 43 || s[i] == 45);
        } else {
            let k = i - off;
            assert(s[i] == body[k]);
            if d < 0 {
                assert(is_digit(body[k]));
            } else {
                let ip = body.subrange(0, d);
                let fp = body.subrange(d + 1, body.len() as int);
                if k < d {
                    assert(ip[k] == body[k]);
                    assert(is_digit(ip[k]));
                } else if k == d {
                    assert(body[k] == 46);
                } else {
                    assert(fp[k - d - 1] == body[k]);
                    assert(is_digit(fp[k - d - 1]));
                }
            }
        }
    }
}

/// Parser round trip: a line assembled from a semicolon-free, non-empty key
/// and an accepted value field is a record, and parses back to exactly that
/// key and that value.
pub proof fn lemma_parse_round_trip(key: Seq<u8>, value: Seq<u8>)
    requires
        key.len() >= 1,
        forall|i: int| 0 <= i < key.len() ==> key[i] != 59,
        is_number(value),
    ensures
        line_ok(key + seq![59u8] + value),
        line_key(key + seq![59u8] + value) == key,
        line_val(key + seq![59u8] + value) == number_val(value),
{
    let line = key + seq![59u8] + value;
    let kl = key.len() as int;
    assert(line.len() == key.len() + 1 + value.len());
    assert(line[kl] == 59);
    assert forall|i: int| 0 <= i < kl implies line[i] != 59 by {
        assert(line[i] == key[i]);
    }
    lemma_find_byte_at(line, 59, kl);
    assert(line.subrange(0, kl) =~= key);
    assert(line.subrange(kl + 1, line.len() as int) =~= value);
    lemma_number_no_semi(value);
    lemma_find_byte(value, 59);
    if find_byte(value, 59) >= 0 {
        assert(value[find_byte(value, 59)] != 59);
    }
    assert(value.len() >= 1);
}

} // verus!
