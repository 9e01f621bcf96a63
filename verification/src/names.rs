use vstd::prelude::*;

verus! {

/// Whether `c` is one of the characters `0` to `9`.
pub open spec fn is_digit(c: char) -> bool {
    '0' <= c <= '9'
}

/// The number that a sequence of decimal digits stands for.
pub open spec fn decimal(digits: Seq<char>) -> nat
    decreases digits.len(),
{
    if digits.len() == 0 {
        0
    } else {
        decimal(digits.drop_last()) * 10 + (digits.last() as nat - '0' as nat) as nat
    }
}

/// Whether `name` is the name of a chunk file: twenty decimal digits that
/// stand for a `u64`.
pub open spec fn is_chunk_name(name: Seq<char>) -> bool {
    &&& name.len() == 20
    &&& forall|i: int| 0 <= i < name.len() ==> is_digit(#[trigger] name[i])
    &&& decimal(name) <= u64::MAX
}

/// The first index of the chunk whose file has the name `name`.
pub open spec fn index_of(name: Seq<char>) -> u64 {
    decimal(name) as u64
}

/// Whether `name` is the name of the chunk file whose first index is
/// `idx`.
pub open spec fn is_file_name(name: Seq<char>, idx: u64) -> bool {
    is_chunk_name(name) && index_of(name) == idx
}

/// The digits of a number stand for at least as much as any of the
/// number's leading digits.
pub proof fn lemma_decimal_prefix(digits: Seq<char>, n: int)
    requires
        0 <= n <= digits.len(),
        forall|i: int| 0 <= i < digits.len() ==> is_digit(#[trigger] digits[i]),
    ensures
        decimal(digits.subrange(0, n)) <= decimal(digits),
    decreases digits.len() - n,
{
    if n == digits.len() {
        assert(digits.subrange(0, n) =~= digits);
    } else {
        lemma_decimal_prefix(digits, n + 1);
        let longer = digits.subrange(0, n + 1);
        assert(longer.drop_last() =~= digits.subrange(0, n));
        assert(is_digit(digits[n]));
    }
}

/// Name formatting for chunk files. Calls the standard library's
/// `format!` with `{:020}`, which writes a `u64` in decimal and pads it
/// with zeros on the left to twenty characters, the most that a `u64`
/// takes.
#[verifier::external_body]
pub(crate) fn format_file_name(idx: u64) -> (name: String)
    ensures
        is_file_name(name@, idx),
{
    format!("{:020}", idx)
}

/// The first index that a chunk file's name stands for; `None` for a
/// name that is not the name of a chunk file.
pub fn parse_file_name(name: &str) -> (r: Option<u64>)
    ensures
        match r {
            Some(idx) => is_file_name(name@, idx),
            None => !is_chunk_name(name@),
        },
{
    broadcast use vstd::string::is_ascii_spec_bytes;

    if !name.is_ascii() {
        proof {
            if is_chunk_name(name@) {
                assert forall|i: int| 0 <= i < name@.len() implies '\0' <= #[trigger] name@[i]
                    <= '\u{7f}' by {
                    assert(is_digit(name@[i]));
                }
            }
        }
        return None;
    }
    let bytes = name.as_bytes();
    if bytes.len() != 20 {
        return None;
    }
    let mut value: u64 = 0;
    let mut i: usize = 0;
    while i < 20
        invariant
            i <= 20,
            bytes@.len() == 20,
            name@.len() == 20,
            forall|j: int| 0 <= j < 20 ==> bytes@[j] == name@[j] as u8,
            forall|j: int| 0 <= j < 20 ==> '\0' <= #[trigger] name@[j] <= '\u{7f}',
            forall|j: int| 0 <= j < i ==> is_digit(#[trigger] name@[j]),
            value == decimal(name@.subrange(0, i as int)),
        decreases 20 - i,
    {
        let b = bytes[i];
        if b < 48 || b > 57 {
            assert(!is_digit(name@[i as int]));
            return None;
        }
        let d = (b - 48) as u64;
        assert(name@.subrange(0, i + 1).drop_last() =~= name@.subrange(0, i as int));
        assert(decimal(name@.subrange(0, i + 1)) == value * 10 + d);
        assert(is_digit(name@[i as int]));
        if value > (u64::MAX - d) / 10 {
            proof {
                if is_chunk_name(name@) {
                    lemma_decimal_prefix(name@, i + 1);
                }
            }
            return None;
        }
        value = value * 10 + d;
        i += 1;
    }
    assert(name@.subrange(0, 20) =~= name@);
    Some(value)
}


} // verus!
