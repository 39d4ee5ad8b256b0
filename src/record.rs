use vstd::prelude::*;
use vstd::string::StringSliceAdditionalSpecFns;

verus! {

/// Why a data line yields no position.
#[derive(Debug, Clone, Copy, PartialEq, Eq, Structural)]
pub enum RecordError {
    /// The line has no second tab-separated field.
    MissingField,
    /// The second field is not a decimal number that fits in a `u32`.
    InvalidPosition,
}

pub const TAB: u8 = 9;

pub const HEADER_MARK: u8 = 35;

pub const PLUS: u8 = 43;

/// A line that starts with `#` carries metadata, not a record.
pub open spec fn is_header(b: Seq<u8>) -> bool {
    b.len() > 0 && b[0] == HEADER_MARK
}

/// The index of the first tab at or after `i`, or the length where none is.
pub open spec fn tab_from(b: Seq<u8>, i: int) -> int
    decreases b.len() - i,
{
    if i < 0 || i >= b.len() {
        b.len() as int
    } else if b[i] == TAB {
        i
    } else {
        tab_from(b, i + 1)
    }
}

/// The second tab-separated field of a line, if the line has a tab.
pub open spec fn second_field(b: Seq<u8>) -> Option<Seq<u8>> {
    let t = tab_from(b, 0);
    if t >= b.len() {
        None
    } else {
        Some(b.subrange(t + 1, tab_from(b, t + 1)))
    }
}

pub open spec fn is_digit(c: u8) -> bool {
    48 <= c <= 57
}

pub open spec fn all_digits(d: Seq<u8>) -> bool {
    forall|i: int| 0 <= i < d.len() ==> is_digit(#[trigger] d[i])
}

/// The number that a string of decimal digits writes.
pub open spec fn digits_value(d: Seq<u8>) -> nat
    decreases d.len(),
{
    if d.len() == 0 {
        0
    } else {
        digits_value(d.drop_last()) * 10 + (d.last() - 48) as nat
    }
}

/// The digits of a field, past one optional leading `+`.
pub open spec fn unsigned_digits(f: Seq<u8>) -> Seq<u8> {
    if f.len() > 0 && f[0] == PLUS {
        f.drop_first()
    } else {
        f
    }
}

/// A field read as a `u32`: an optional `+`, then one or more decimal digits
/// whose value fits in 32 bits.
pub open spec fn parse_u32(f: Seq<u8>) -> Option<u32> {
    let d = unsigned_digits(f);
    if d.len() > 0 && all_digits(d) && digits_value(d) <= u32::MAX {
        Some(digits_value(d) as u32)
    } else {
        None
    }
}

/// The genomic position of a data line: its second field, read as a `u32`.
pub open spec fn position_of(b: Seq<u8>) -> Result<u32, RecordError> {
    match second_field(b) {
        None => Err(RecordError::MissingField),
        Some(f) => match parse_u32(f) {
            None => Err(RecordError::InvalidPosition),
            Some(p) => Ok(p),
        },
    }
}

proof fn lemma_digits_prefix(d: Seq<u8>, k: int)
    requires
        all_digits(d),
        0 <= k <= d.len(),
    ensures
        digits_value(d.take(k)) <= digits_value(d),
    decreases d.len(),
{
    if k < d.len() {
        let p = d.drop_last();
        assert(all_digits(p));
        lemma_digits_prefix(p, k);
        assert(p.take(k) =~= d.take(k));
    } else {
        assert(d.take(k) =~= d);
    }
}

/// The index of the first tab in `b` at or after `from`, or `b.len()`.
fn find_tab(b: &[u8], from: usize) -> (r: usize)
    requires
        from <= b@.len(),
    ensures
        r as int == tab_from(b@, from as int),
        from <= r <= b@.len(),
{
    let mut i: usize = from;
    while i < b.len()
        invariant
            from <= i <= b@.len(),
            tab_from(b@, from as int) == tab_from(b@, i as int),
        decreases b@.len() - i,
    {
        if b[i] == TAB {
            return i;
        }
        i = i + 1;
    }
    i
}

/// Reads `b[lo..hi]` as a `u32` in the way `parse_u32` says.
fn parse_u32_range(b: &[u8], lo: usize, hi: usize) -> (r: Option<u32>)
    requires
        lo <= hi <= b@.len(),
    ensures
        r == parse_u32(b@.subrange(lo as int, hi as int)),
{
    let ghost f = b@.subrange(lo as int, hi as int);
    let mut s: usize = lo;
    if s < hi && b[s] == PLUS {
        s = s + 1;
    }
    let ghost d = b@.subrange(s as int, hi as int);
    assert(d =~= unsigned_digits(f));
    if s == hi {
        return None;
    }
    let mut v: u64 = 0;
    let mut i: usize = s;
    while i < hi
        invariant
            s <= i <= hi <= b@.len(),
            d == b@.subrange(s as int, hi as int),
            d =~= unsigned_digits(f),
            f == b@.subrange(lo as int, hi as int),
            d.len() > 0,
            all_digits(b@.subrange(s as int, i as int)),
            v as nat == digits_value(b@.subrange(s as int, i as int)),
            v <= u32::MAX,
        decreases hi - i,
    {
        let c = b[i];
        assert(b@.subrange(s as int, i as int + 1).drop_last() =~= b@.subrange(s as int, i as int));
        if c < 48 || c > 57 {
            assert(!is_digit(d[i - s]));
            return None;
        }
        v = v * 10 + (c - 48) as u64;
        assert(all_digits(b@.subrange(s as int, i as int + 1)));
        if v > 0xffff_ffff {
            proof {
                if all_digits(d) {
                    lemma_digits_prefix(d, i - s + 1);
                    assert(d.take(i - s + 1) =~= b@.subrange(s as int, i as int + 1));
                }
            }
            return None;
        }
        i = i + 1;
    }
    assert(b@.subrange(s as int, i as int) =~= d);
    Some(v as u32)
}

/// Whether a line is a header line, one that starts with `#`.
pub fn is_header_line(line: &str) -> (r: bool)
    ensures
        r == is_header(line.spec_bytes()),
{
    let b = line.as_bytes();
    b.len() > 0 && b[0] == HEADER_MARK
}

/// The position that a data line carries in its second tab-separated field.
pub fn record_position(line: &str) -> (r: Result<u32, RecordError>)
    ensures
        r == position_of(line.spec_bytes()),
{
    let b = line.as_bytes();
    let t = find_tab(b, 0);
    if t >= b.len() {
        return Err(RecordError::MissingField);
    }
    let e = find_tab(b, t + 1);
    match parse_u32_range(b, t + 1, e) {
        None => Err(RecordError::InvalidPosition),
        Some(p) => Ok(p),
    }
}

} // verus!
