//! Hexadecimal views of byte identifiers, and prefixes written in hex.
use vstd::prelude::*;
use vstd::string::*;

verus! {

/// The hex digits (nibbles) of a byte string, high nibble first.
pub open spec fn nibbles(b: Seq<u8>) -> Seq<u8> {
    Seq::new(2 * b.len(), |i: int| if i % 2 == 0 { b[i / 2] / 16 } else { b[i / 2] % 16 })
}

/// `n` is the length of the longest common prefix of `a` and `b`.
pub open spec fn is_common_prefix_len(a: Seq<u8>, b: Seq<u8>, n: int) -> bool {
    &&& 0 <= n <= a.len()
    &&& n <= b.len()
    &&& forall|j: int| 0 <= j < n ==> a[j] == b[j]
    &&& (n == a.len() || n == b.len() || a[n] != b[n])
}

/// Whether `a` and `b` agree on their first `n` hex digits (both have them).
pub open spec fn shares_hex_prefix(a: Seq<u8>, b: Seq<u8>, n: int) -> bool {
    &&& 0 <= n
    &&& n <= nibbles(a).len()
    &&& n <= nibbles(b).len()
    &&& forall|j: int| 0 <= j < n ==> nibbles(a)[j] == nibbles(b)[j]
}

/// Whether the hex digits `d` begin the hex form of `id`.
pub open spec fn hex_prefix_matches(d: Seq<u8>, id: Seq<u8>) -> bool {
    d.len() <= nibbles(id).len() && nibbles(id).take(d.len() as int) == d
}

/// A copy of a byte string.
pub fn copy_bytes(b: &Vec<u8>) -> (r: Vec<u8>)
    ensures
        r@ == b@,
{
    let mut r: Vec<u8> = Vec::new();
    let mut i: usize = 0;
    while i < b.len()
        invariant
            i <= b@.len(),
            r@ == b@.take(i as int),
        decreases b@.len() - i,
    {
        r.push(b[i]);
        i = i + 1;
        assert(r@ =~= b@.take(i as int));
    }
    assert(r@ =~= b@);
    r
}

/// The numeric value of a hex digit character, or -1.
pub open spec fn hex_digit_value(c: char) -> int {
    if '0' <= c && c <= '9' {
        c as int - '0' as int
    } else if 'a' <= c && c <= 'f' {
        c as int - 'a' as int + 10
    } else if 'A' <= c && c <= 'F' {
        c as int - 'A' as int + 10
    } else {
        -1
    }
}

pub open spec fn is_hex_string(s: Seq<char>) -> bool {
    forall|i: int| 0 <= i < s.len() ==> hex_digit_value(#[trigger] s[i]) >= 0
}

/// The digit values of a hex string.
pub open spec fn digits_of(s: Seq<char>) -> Seq<u8> {
    Seq::new(s.len(), |i: int| hex_digit_value(s[i]) as u8)
}

/// The bytes that an even-length hex string denotes.
pub open spec fn bytes_of_hex(s: Seq<char>) -> Seq<u8> {
    Seq::new(
        s.len() / 2,
        |i: int| (16 * hex_digit_value(s[2 * i]) + hex_digit_value(s[2 * i + 1])) as u8,
    )
}

fn digit_value(c: char) -> (r: Option<u8>)
    ensures
        hex_digit_value(c) >= 0 ==> r == Some(hex_digit_value(c) as u8),
        hex_digit_value(c) < 0 ==> r.is_none(),
{
    if '0' <= c && c <= '9' {
        Some((c as u32 - '0' as u32) as u8)
    } else if 'a' <= c && c <= 'f' {
        Some((c as u32 - 'a' as u32 + 10) as u8)
    } else if 'A' <= c && c <= 'F' {
        Some((c as u32 - 'A' as u32 + 10) as u8)
    } else {
        None
    }
}

/// The `i`-th hex digit of `b`.
pub fn nibble_at(b: &Vec<u8>, i: usize) -> (r: u8)
    requires
        i < 2 * b@.len(),
    ensures
        r == nibbles(b@)[i as int],
        r < 16,
{
    let byte = b[i / 2];
    if i % 2 == 0 {
        byte / 16
    } else {
        byte % 16
    }
}

/// Number of leading hex digits that `a` and `b` have in common.
pub fn common_hex_len(a: &Vec<u8>, b: &Vec<u8>) -> (r: usize)
    requires
        a@.len() <= isize::MAX,
    ensures
        is_common_prefix_len(nibbles(a@), nibbles(b@), r as int),
{
    let n: usize = if a.len() < b.len() { a.len() } else { b.len() };
    let mut i: usize = 0;
    while i < n
        invariant
            n == a@.len() || n == b@.len(),
            n <= a@.len(),
            n <= b@.len(),
            a@.len() <= isize::MAX,
            i <= n,
            forall|j: int| 0 <= j < 2 * i ==> nibbles(a@)[j] == nibbles(b@)[j],
        decreases n - i,
    {
        let x = a[i];
        let y = b[i];
        if x != y {
            assert(nibbles(a@)[2 * i + 1] == x % 16);
            assert(nibbles(b@)[2 * i + 1] == y % 16);
            assert(nibbles(a@)[2 * i as int] == x / 16);
            assert(nibbles(b@)[2 * i as int] == y / 16);
            if x / 16 == y / 16 {
                assert(x % 16 != y % 16);
                return 2 * i + 1;
            } else {
                return 2 * i;
            }
        }
        assert(nibbles(a@)[2 * i + 1] == nibbles(b@)[2 * i + 1]);
        assert(nibbles(a@)[2 * i as int] == nibbles(b@)[2 * i as int]);
        i = i + 1;
    }
    2 * n
}

/// A prefix of an identifier written in hex; it may end in half a byte.
pub struct HexPrefix {
    pub digits: Vec<u8>,
}

impl View for HexPrefix {
    type V = Seq<u8>;

    open spec fn view(&self) -> Seq<u8> {
        self.digits@
    }
}

impl HexPrefix {
    pub open spec fn wf(&self) -> bool {
        forall|i: int| 0 <= i < self@.len() ==> #[trigger] self@[i] < 16
    }

    /// Whether `id` starts with this prefix.
    pub open spec fn spec_matches(&self, id: Seq<u8>) -> bool {
        hex_prefix_matches(self@, id)
    }

    /// Parses a prefix; `None` unless every character is a hex digit.
    pub fn new(s: &str) -> (r: Option<HexPrefix>)
        ensures
            r.is_some() <==> is_hex_string(s@),
            r.is_some() ==> r.unwrap().wf() && r.unwrap()@ == digits_of(s@),
    {
        let len = s.unicode_len();
        let mut digits: Vec<u8> = Vec::new();
        let mut i: usize = 0;
        while i < len
            invariant
                len == s@.len(),
                i <= len,
                digits@.len() == i,
                forall|j: int| 0 <= j < i ==> hex_digit_value(#[trigger] s@[j]) >= 0,
                forall|j: int| 0 <= j < i ==> digits@[j] == digits_of(s@)[j] && #[trigger] digits@[j] < 16,
            decreases len - i,
        {
            match digit_value(s.get_char(i)) {
                Some(d) => digits.push(d),
                None => return None,
            }
            i = i + 1;
        }
        assert(digits@ =~= digits_of(s@));
        Some(HexPrefix { digits })
    }

    /// The number of hex digits in this prefix.
    pub fn len(&self) -> (r: usize)
        ensures
            r == self@.len(),
    {
        self.digits.len()
    }

    /// Whether `id` starts with this prefix.
    pub fn matches(&self, id: &Vec<u8>) -> (r: bool)
        ensures
            r == self.spec_matches(id@),
    {
        let n = self.digits.len();
        if id.len() < n / 2 + n % 2 {
            return false;
        }
        let mut i: usize = 0;
        while i < n
            invariant
                n == self@.len(),
                n <= 2 * id@.len(),
                i <= n,
                forall|j: int| 0 <= j < i ==> nibbles(id@)[j] == self@[j],
            decreases n - i,
        {
            if nibble_at(id, i) != self.digits[i] {
                assert(nibbles(id@).take(n as int)[i as int] != self@[i as int]);
                return false;
            }
            i = i + 1;
        }
        assert(nibbles(id@).take(n as int) =~= self@);
        true
    }
}

/// Decodes an even-length hex string into bytes.
pub fn id_from_hex(s: &str) -> (r: Option<Vec<u8>>)
    ensures
        r.is_some() <==> is_hex_string(s@) && s@.len() % 2 == 0,
        r.is_some() ==> r.unwrap()@ == bytes_of_hex(s@),
{
    let len = s.unicode_len();
    if len % 2 != 0 {
        return None;
    }
    let mut out: Vec<u8> = Vec::new();
    let mut i: usize = 0;
    while i < len / 2
        invariant
            len == s@.len(),
            len % 2 == 0,
            i <= len / 2,
            out@.len() == i,
            forall|j: int| 0 <= j < 2 * i ==> hex_digit_value(#[trigger] s@[j]) >= 0,
            forall|j: int| 0 <= j < i ==> out@[j] == #[trigger] bytes_of_hex(s@)[j],
        decreases len / 2 - i,
    {
        let hi = digit_value(s.get_char(2 * i));
        let lo = digit_value(s.get_char(2 * i + 1));
        match (hi, lo) {
            (Some(h), Some(l)) => {
                out.push(16 * h + l);
            },
            _ => return None,
        }
        i = i + 1;
    }
    assert(out@ =~= bytes_of_hex(s@));
    Some(out)
}

} // verus!
